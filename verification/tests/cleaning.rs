use std::collections::HashMap;
use step_redox::clean::{advance, CleanedExchange, CleanStep, Pass};
use step_redox::clean_again::{clean_bytes, clean_idempotent};
use step_redox::clean_report::report_clean;
use step_redox::count_resize::Semantics;
use step_redox::line_recovery::{LineEvidence, LineFit, StraightCurve};
use step_redox::measured::make_lines_pass;
use step_redox::options::{Options, OutputProfile};
use step_redox::patterns::InstancePattern;
use step_redox::read::{decode_input, read_exchange, Encoding, StepError};

const MARKER: &str = "STEPREDOXEMPTYAGGREGATE";

fn wrap(data: &str) -> Vec<u8> {
    format!(
        "ISO-10303-21;\nHEADER;\nFILE_DESCRIPTION(('x'),'1');\nFILE_NAME('a','b',(''),(''),'x','y','');\nFILE_SCHEMA(('AUTOMOTIVE_DESIGN'));\nENDSEC;\nDATA;\n{data}\nENDSEC;\nEND-ISO-10303-21;\n"
    )
    .into_bytes()
}

fn clean(input: &[u8], options: &Options) -> CleanedExchange {
    match clean_bytes(input, options).unwrap() {
        CleanStep::Finished(out) => out,
        CleanStep::Needs { pass, .. } => panic!("{pass:?} needs something measured"),
    }
}

fn error_of(input: &[u8]) -> StepError {
    match clean_bytes(input, &Options::default()) {
        Err(error) => error,
        Ok(_) => panic!("the file was read"),
    }
}

#[test]
fn writer_roundtrips_basic_exchange() {
    let src = wrap(
        "#9=CARTESIAN_POINT('NONE',(1.000000000000000000,2.500000000000000000,0.000000000000000000));\n#20=CARTESIAN_POINT('NONE',(1.0,2.5,0.0));\n#21=VERTEX_POINT('NONE',#20);",
    );
    let out = clean(&src, &Options::default());
    assert!(out.stats.output_bytes < out.stats.input_bytes);
    assert_eq!(out.stats.interned_entities, 1);
    ruststep::parser::parse(std::str::from_utf8(&out.bytes).unwrap()).unwrap();
}

#[test]
fn equal_geometry_values_share_but_topology_identity_survives() {
    let src = wrap(
        "#1=CARTESIAN_POINT('',(1.0,2.0,3.0));\n#2=CARTESIAN_POINT('',(1.000000000000000000,2.0,3.0));\n#3=VERTEX_POINT('',#1);\n#4=VERTEX_POINT('',#2);",
    );
    let out = clean(&src, &Options::default());
    assert_eq!(out.stats.interned_entities, 1);
    assert_eq!(out.stats.output_entities, 3);

    let text = std::str::from_utf8(&out.bytes).unwrap();
    assert_eq!(text.matches("VERTEX_POINT").count(), 2);
    assert_eq!(text.matches("CARTESIAN_POINT").count(), 1);
}

#[test]
fn consolidates_only_unreferenced_presentation_roots() {
    let src = wrap(
        "#1=CARTESIAN_POINT('',(0.0,0.0,0.0));\n\
         #8=DIRECTION('',(1.0,0.0,0.0));\n\
         #2=STYLED_ITEM('',(#8),#1);\n\
         #3=STYLED_ITEM('',(#8),#1);\n\
         #4=MECHANICAL_DESIGN_GEOMETRIC_PRESENTATION_REPRESENTATION('',(#2),#1);\n\
         #5=MECHANICAL_DESIGN_GEOMETRIC_PRESENTATION_REPRESENTATION('',(#3),#1);\n\
         #6=PRESENTATION_LAYER_ASSIGNMENT('','',(#2));\n\
         #7=PRESENTATION_LAYER_ASSIGNMENT('','',(#3));",
    );
    let out = clean(&src, &Options::default());
    assert_eq!(out.stats.consolidated_entities, 2);
    let text = std::str::from_utf8(&out.bytes).unwrap();
    assert_eq!(
        text.matches("MECHANICAL_DESIGN_GEOMETRIC_PRESENTATION_REPRESENTATION")
            .count(),
        1
    );
    assert_eq!(text.matches("PRESENTATION_LAYER_ASSIGNMENT").count(), 1);
}

#[test]
fn referenced_presentation_records_are_not_consolidated() {
    let src = wrap(
        "#1=CARTESIAN_POINT('',(0.0,0.0,0.0));\n\
         #8=DIRECTION('',(1.0,0.0,0.0));\n\
         #2=STYLED_ITEM('',(#8),#1);\n\
         #3=STYLED_ITEM('',(#8),#1);\n\
         #4=MECHANICAL_DESIGN_GEOMETRIC_PRESENTATION_REPRESENTATION('',(#2),#1);\n\
         #5=MECHANICAL_DESIGN_GEOMETRIC_PRESENTATION_REPRESENTATION('',(#3),#1);\n\
         #6=REPRESENTATION_RELATIONSHIP('','',#4,#5);",
    );
    let out = clean(&src, &Options::default());
    assert_eq!(out.stats.consolidated_entities, 0);
}

#[test]
fn legal_empty_aggregates_roundtrip_through_ruststep_compatibility_shim() {
    let src = wrap("#8=SHAPE_REPRESENTATION('',(),#6);\n#6=CARTESIAN_POINT('',(0.0,0.0,0.0));");
    let once = clean(&src, &Options::default());
    let text = std::str::from_utf8(&once.bytes).unwrap();
    assert!(text.contains("SHAPE_REPRESENTATION('',(),#"));
    assert!(!text.contains(MARKER));

    let twice = clean(&once.bytes, &Options::default());
    assert_eq!(once.bytes, twice.bytes);
}

#[test]
fn empty_aggregate_shim_ignores_parentheses_inside_strings_and_comments() {
    let src = wrap(
        "#1=CARTESIAN_POINT('literal ()', (0.0,0.0,0.0));\n/* () */\n#2=SHAPE_REPRESENTATION('',( ),#1);",
    );
    let out = clean(&src, &Options::default());
    let text = std::str::from_utf8(&out.bytes).unwrap();
    assert!(text.contains("literal ()"));
    assert!(text.contains("SHAPE_REPRESENTATION('',(),#"));
    assert!(!text.contains(MARKER));
}

#[test]
fn optional_placeholder_name_minification_only_touches_allowlisted_name_fields() {
    let src =
        wrap("#1=CARTESIAN_POINT('NONE',(0.0,0.0,0.0));\n#2=PRODUCT('NONE','NONE','NONE',());");
    let options = Options {
        minify_placeholder_names: true,
        ..Options::default()
    };
    let out = clean(&src, &options);
    let text = std::str::from_utf8(&out.bytes).unwrap();
    assert!(text.contains("CARTESIAN_POINT('',"));
    assert!(text.contains("PRODUCT('NONE','NONE','NONE',())"));
    assert_eq!(out.stats.placeholder_names_minified, 1);
}

#[test]
fn gbk_strings_become_standard_x2_unicode_escapes() {
    let mut src = b"ISO-10303-21;\nHEADER;\nFILE_DESCRIPTION(('x'),'1');\nFILE_NAME('a','b',(''),(''),'x','y','');\nFILE_SCHEMA(('AUTOMOTIVE_DESIGN'));\nENDSEC;\nDATA;\n#1=CARTESIAN_POINT('".to_vec();
    src.extend_from_slice(&[0xC8, 0xCE, 0xBA, 0xCE]);
    src.extend_from_slice(b"',(0.0,0.0,0.0));\nENDSEC;\nEND-ISO-10303-21;\n");

    let out = clean(&src, &Options::default());
    assert_eq!(out.encoding.label(), "gbk");
    let text = std::str::from_utf8(&out.bytes).unwrap();
    assert!(text.contains("\\X2\\4EFB4F55\\X0\\"));
}

#[test]
fn cleaning_is_byte_idempotent() {
    let src = wrap(
        "#10=DIRECTION('',(1.000000000000000000,0.0,0.0));\n#20=DIRECTION('',(1.0,0.0,0.0));\n#30=VECTOR('',#20,1000.000000000000000000);",
    );
    let once = clean(&src, &Options::default());
    let twice = clean(&once.bytes, &Options::default());
    assert_eq!(once.bytes, twice.bytes);
}

fn clean_lines(input: &[u8], options: &Options, evidence: Vec<LineEvidence>) -> CleanedExchange {
    match clean_bytes(input, options).unwrap() {
        CleanStep::Finished(_) => panic!("no pass was asked for"),
        CleanStep::Needs { run, pass } => {
            assert_eq!(pass, Pass::StraightLines);
            match advance(make_lines_pass(run, &evidence)) {
                CleanStep::Finished(out) => out,
                CleanStep::Needs { .. } => panic!("a second pass was asked for"),
            }
        }
    }
}

#[test]
fn straight_bspline_recovery_is_byte_idempotent() {
    let src = wrap(
        "#1=CARTESIAN_POINT('',(0.,0.,0.));\n\
         #2=CARTESIAN_POINT('',(1.,0.,0.));\n\
         #3=CARTESIAN_POINT('',(2.,0.,0.));\n\
         #4=CARTESIAN_POINT('',(3.,0.,0.));\n\
         #5=VERTEX_POINT('',#1);\n\
         #6=VERTEX_POINT('',#4);\n\
         #7=B_SPLINE_CURVE_WITH_KNOTS('',3,(#1,#2,#3,#4),.UNSPECIFIED.,.F.,.F.,(4,4),(0.,1.),.UNSPECIFIED.);\n\
         #8=EDGE_CURVE('',#5,#6,#7,.T.);",
    );
    let options = Options {
        experimental_recover_straight_bspline_lines: true,
        ..Options::default()
    };
    let straight = StraightCurve {
        curve: 7,
        fit: LineFit {
            collinear: true,
            monotonic: true,
            start_at_first: true,
            end_at_last: true,
            start_at_last: false,
            end_at_first: false,
        },
        bucket: 0,
        x: "1".to_string(),
        y: "0".to_string(),
        z: "0".to_string(),
    };
    let first = LineEvidence {
        straight: vec![straight],
        accepted: HashMap::from([(7, vec![7])]),
    };
    let once = clean_lines(&src, &options, vec![first]);
    assert_eq!(once.stats.passes.straight_bspline_lines_recovered, 1);
    let second = LineEvidence {
        straight: Vec::new(),
        accepted: HashMap::new(),
    };
    let twice = clean_lines(&once.bytes, &options, vec![second]);
    assert_eq!(twice.stats.passes.straight_bspline_lines_recovered, 0);
    assert_eq!(once.bytes, twice.bytes);
}

#[test]
fn a_cleaned_file_has_this_text() {
    let src = wrap("#7=CARTESIAN_POINT('p',(1.50,0.0,2.E3));\n#9=VERTEX_POINT('',#7);");
    let out = clean(&src, &Options::default());
    let text = std::str::from_utf8(&out.bytes).unwrap();
    assert!(text.contains("#1=CARTESIAN_POINT('p',(1.5,0.,2000.));"), "{text}");
    assert!(text.contains("#2=VERTEX_POINT('',#1);"), "{text}");
    assert_eq!(out.encoding, Encoding::Utf8);
    assert_eq!(out.stats.input_bytes, src.len());
    assert_eq!(out.stats.output_bytes, out.bytes.len());
}

#[test]
fn dense_ids_can_be_left_out() {
    let src = wrap("#7=CARTESIAN_POINT('p',(1.,2.,3.));\n#9=VERTEX_POINT('',#7);");
    let options = Options {
        dense_ids: false,
        ..Options::default()
    };
    let text = String::from_utf8(clean(&src, &options).bytes).unwrap();
    assert!(text.contains("#7=CARTESIAN_POINT"));
    assert!(text.contains("#9=VERTEX_POINT('',#7)"));
}

#[test]
fn values_are_shared_through_what_they_refer_to() {
    let src = wrap(
        "#1=CARTESIAN_POINT('',(0.,0.,0.));\n#2=CARTESIAN_POINT('',(0.,0.,0.));\n\
         #3=DIRECTION('',(0.,0.,1.));\n#4=DIRECTION('',(1.,0.,0.));\n\
         #5=AXIS2_PLACEMENT_3D('',#1,#3,#4);\n#6=AXIS2_PLACEMENT_3D('',#2,#3,#4);\n\
         #7=PLANE('',#5);\n#8=PLANE('',#6);\n#9=ADVANCED_FACE('',(),#7,.T.);\n\
         #10=ADVANCED_FACE('',(),#8,.T.);",
    );
    let out = clean(&src, &Options::default());
    assert_eq!(out.stats.interned_entities, 3);
    assert_eq!(out.stats.output_entities, 7);
}

#[test]
fn files_that_cannot_be_read_are_refused() {
    assert_eq!(error_of(&[0x49, 0xFF, 0xFF]), StepError::NotText);
    assert_eq!(error_of(b"no exchange structure"), StepError::Parse);
    assert_eq!(
        error_of(&wrap("#1=CARTESIAN_POINT('',(99999999999999999999,0.,0.));")),
        StepError::NumberTooLarge
    );
    for text in [
        "ISO-10303-21;HEADER;A(1.0E99999999999999999999.);ENDSEC;END-ISO-10303-21;",
        "ISO-10303-21;HEADER;A(1.0E - 99999999999999999999);ENDSEC;END-ISO-10303-21;",
        "ISO-10303-21;HEADER;A(1.E99999999999999999999);ENDSEC;END-ISO-10303-21;",
        "ISO-10303-21;HEADER;A('ANCHOR;',- 99999999999999999999);ENDSEC;END-ISO-10303-21;",
        "ISO-10303-21;HEADER;A(1);ENDSEC;ANCHOR;<it's>=99999999999999999999.;ENDSEC;END-ISO-10303-21;",
    ] {
        assert_eq!(error_of(text.as_bytes()), StepError::NumberTooLarge, "{text}");
    }
}

#[test]
fn long_digits_that_are_no_integers_are_read() {
    for text in [
        "ISO-10303-21;HEADER;A(99999999999999999999.);ENDSEC;END-ISO-10303-21;",
        "ISO-10303-21;HEADER;A(0.99999999999999999999E5);ENDSEC;END-ISO-10303-21;",
        "ISO-10303-21;HEADER;A('REFERENCE;99999999999999999999');ENDSEC;END-ISO-10303-21;",
        "ISO-10303-21;HEADER;A('ANCHOR;',99999999999999999999.);ENDSEC;END-ISO-10303-21;",
        "ISO-10303-21;HEADER;/* 99999999999999999999 */A(1);ENDSEC;END-ISO-10303-21;",
        "ISO-10303-21;HEADER;RE99999999999999999999(.E99999999999999999999.);ENDSEC;END-ISO-10303-21;",
        "ISO-10303-21;HEADER;A(1);ENDSEC;END-ISO-10303-21;99999999999999999999",
        "ISO-10303-21;HEADER;A(1);ENDSEC;ANCHOR;ENDSEC;DATA;#1=A(99999999999999999999.);ENDSEC;END-ISO-10303-21;",
        "ISO-10303-21;HEADER;A(1);ENDSEC;REFERENCE;ENDSEC;DATA;#1=A('99999999999999999999');ENDSEC;END-ISO-10303-21;",
    ] {
        assert!(read_exchange(text.as_bytes()).is_ok(), "{text}");
    }
}

#[test]
fn text_is_decoded_as_utf8_first() {
    let (text, encoding) = decode_input("ISO é".as_bytes()).unwrap();
    assert_eq!(text, "ISO é");
    assert_eq!(encoding, Encoding::Utf8);
    let (text, encoding) = decode_input(&[0x41, 0xC8, 0xCE]).unwrap();
    assert_eq!(text, "A任");
    assert_eq!(encoding, Encoding::Gbk);
}

#[test]
fn a_regular_file_cleans_to_itself() {
    let src = wrap(
        "#10=DIRECTION('',(1.,0.,0.));\n#20=DIRECTION('',(1.,0.,0.));\n#30=VECTOR('',#20,1000.);\n#40=LINE('',#50,#30);\n#50=CARTESIAN_POINT('',(0.,0.,0.));",
    );
    assert_eq!(clean_idempotent(&src), Some(true));
    assert_eq!(clean_idempotent(b"no exchange structure"), None);
}

/// Two chains of equal values, each of some depth.
fn twin_chains(depth: usize) -> Vec<u8> {
    let mut data = String::new();
    for side in 0..2 {
        for k in 1..=depth {
            let id = side * depth + k;
            if k == 1 {
                data.push_str(&format!("#{id}=CARTESIAN_POINT('',(0.,0.,0.));\n"));
            } else {
                data.push_str(&format!("#{id}=PLANE('',#{});\n", id - 1));
            }
        }
    }
    data.push_str(&format!("#900=A(#{},#{});", depth, 2 * depth));
    wrap(&data)
}

#[test]
fn deep_copies_are_shared_at_once() {
    for depth in [1, 16, 17, 18, 40] {
        let src = twin_chains(depth);
        let out = clean(&src, &Options::default());
        assert_eq!(out.stats.interned_entities, depth, "{depth}");
        assert_eq!(out.stats.output_entities, depth + 1, "{depth}");
        assert_eq!(clean_idempotent(&src), Some(true), "{depth}");
    }
}

#[test]
fn infinite_reals_are_refused() {
    for real in ["1.E400", "-1.E400"] {
        let src = wrap(&format!("#1=CARTESIAN_POINT('',({real},0.,0.));"));
        assert_eq!(error_of(&src), StepError::InfiniteReal, "{real}");
    }
    assert!(clean_idempotent(&wrap("#1=CARTESIAN_POINT('',(1.E300,1.E-300,0.));")).unwrap());
}

#[test]
fn references_to_nothing_stay() {
    let src = wrap("#3=A(#7);\n#5=CARTESIAN_POINT('',(0.,0.,0.));");
    let text = String::from_utf8(clean(&src, &Options::default()).bytes).unwrap();
    assert!(text.contains("#1=A(#7);"), "{text}");
    assert_eq!(clean_idempotent(&src), Some(true));
}

#[test]
fn files_that_a_second_run_would_change_are_refused() {
    let met = wrap("#5=CARTESIAN_POINT('',(0.,0.,0.));\n#6=PLANE('',#1);\n#7=PLANE('',#5);");
    assert_eq!(error_of(&met), StepError::Unstable);
    assert_eq!(clean_idempotent(&met), None);
    let repeated = wrap("#3=CARTESIAN_POINT('',(0.,0.,0.));\n#3=CARTESIAN_POINT('',(0.,0.,0.));");
    assert_eq!(clean_idempotent(&repeated), Some(true));
}

#[test]
fn a_long_line_without_its_end_is_refused() {
    let text = format!("ISO-10303-21;HEADER;A('{}');", "x".repeat(70000));
    assert_eq!(error_of(text.as_bytes()), StepError::Parse);
    let whole = format!("{text}ENDSEC;DATA;ENDSEC;END-ISO-10303-21;");
    assert!(read_exchange(whole.as_bytes()).is_ok());
}

#[test]
fn lists_are_nested_up_to_a_limit() {
    let nested = |depth: usize| {
        let open = "(".repeat(depth);
        let close = ")".repeat(depth);
        format!("ISO-10303-21;HEADER;A{open}1{close};ENDSEC;END-ISO-10303-21;").into_bytes()
    };
    assert!(read_exchange(&nested(200)).is_ok());
    assert_eq!(read_exchange(&nested(201)).unwrap_err(), StepError::TooDeep);
    assert_eq!(read_exchange(&nested(60000)).unwrap_err(), StepError::TooDeep);
    let anchors = |depth: usize| {
        let item = format!("{}1{}", "(".repeat(depth), ")".repeat(depth));
        format!("ISO-10303-21;HEADER;A(1);ENDSEC;ANCHOR;<a>={item};ENDSEC;END-ISO-10303-21;")
    };
    assert_eq!(
        read_exchange(anchors(200).as_bytes()).unwrap_err(),
        StepError::OptionalSections
    );
    assert_eq!(read_exchange(anchors(201).as_bytes()).unwrap_err(), StepError::TooDeep);
    let typed = wrap(&format!("#1=A({}1{});", "B(".repeat(199), ")".repeat(199)));
    assert_eq!(clean_idempotent(&typed), Some(true));
    let listed = wrap(&format!("#1=A{}1{};", "(".repeat(200), ")".repeat(200)));
    assert_eq!(clean_idempotent(&listed), Some(true));
    let tail = format!(
        "ISO-10303-21;HEADER;A(1);ENDSEC;END-ISO-10303-21;{}",
        "(".repeat(600)
    );
    assert!(read_exchange(tail.as_bytes()).is_ok());
    let anchored = format!(
        "ISO-10303-21;HEADER;A(1);ENDSEC;ANCHOR;<a>=1;<b'((>=$;ENDSEC;DATA;{}#9=A(99999999999999999999.);ENDSEC;END-ISO-10303-21;",
        "#8=A((1),(2));".repeat(300)
    );
    assert_eq!(
        read_exchange(anchored.as_bytes()).unwrap_err(),
        StepError::OptionalSections
    );
    let quoted = format!("ISO-10303-21;HEADER;A('{}');ENDSEC;END-ISO-10303-21;", "(".repeat(600));
    assert!(read_exchange(quoted.as_bytes()).is_ok());
}

#[test]
fn profiles_ask_for_their_passes() {
    let compat = Options::for_profile(OutputProfile::Compat);
    let compact = Options::for_profile(OutputProfile::Compact);
    assert!(compat.experimental_coalesce_same_support_faces);
    assert!(!compat.experimental_instance_z90);
    assert!(compact.experimental_instance_z90);
    assert!(compact.minify_placeholder_names);
    assert!(!Options::default().minify_placeholder_names);
}

fn row(items: Vec<u64>) -> InstancePattern {
    InstancePattern {
        parent_representation: 1,
        representation_map: 2,
        item_ids: items,
        style_signature: Vec::new(),
        dimension: 1,
        origin: [0; 3],
        basis: Vec::new(),
        pitch: Vec::new(),
        occupancy: Vec::new(),
        grid_shape: Vec::new(),
        fill_ratio: 0,
        max_residual: 0,
    }
}

#[test]
fn reported_rows_name_instances_of_the_output() {
    let src = wrap(
        "#30=CARTESIAN_POINT('p',(1.0,2.5,0.0));\n#40=MAPPED_ITEM('a',#30,#30);\n#50=MAPPED_ITEM('b',#30,#30);",
    );
    let found = |rows: Vec<InstancePattern>| Semantics {
        patterns: rows,
        bodies: Vec::new(),
        parameters: Vec::new(),
    };
    let out = clean(&src, &Options::default());
    let bytes = out.bytes.clone();
    let report = report_clean(out, found(vec![row(vec![2, 3])])).unwrap();
    assert_eq!(report.bytes, bytes);
    assert_eq!(report.patterns[0].item_ids, vec![2, 3]);
    let again = |rows| report_clean(clean(&src, &Options::default()), found(rows));
    assert!(again(vec![row(vec![2]), row(vec![40])]).is_none());
    assert!(again(vec![row(vec![1])]).is_none());
    let empty = again(Vec::new()).unwrap();
    assert!(empty.patterns.is_empty());
    assert_eq!(empty.found_counts().pattern_instances_detected, 0);

    let counts = again(vec![row(vec![2, 3]), row(vec![3])]).unwrap().found_counts();
    assert_eq!(counts.instance_patterns_detected, 2);
    assert_eq!(counts.pattern_instances_detected, 3);
    assert_eq!(counts.periodic_body_patterns_detected, 0);
    assert_eq!(counts.periodic_body_repeat_faces, 0);
    assert_eq!(counts.count_parameters_detected, 0);
    assert_eq!(counts.count_parameters_with_body_grammar, 0);
}
