use std::collections::HashMap;
use step_redox::ast::{EntityInstance, Name, Parameter, Record};
use step_redox::body_detection::{
    detect_periodic_bodies, find_solids, lattice_candidates, FaceMeasure, FamilyMeasure, RowFit,
    SolidMeasure,
};
use step_redox::brep::{face_loops, face_sense, matching_plane_bound, solid_face_ids};
use step_redox::chain_partition::{
    classify_faces, face_category, find_links, find_neighbours, EdgeLink, FacePart, FacePlace,
    NeighbourLabel, Side,
};
use step_redox::chain_pattern::FaceEdges;
use step_redox::chain_windows::{find_windows, Window};
use step_redox::formed_sheet::{
    detect_formed_sheet_evidence, SheetCylinderPair, SheetMeasure,
};
use step_redox::graph::build_index;
use step_redox::instance_groups::find_instance_groups;
use step_redox::instance_lattices::{instance_patterns, LatticeFit};
use step_redox::patterns::InstancePattern;

fn entity(id: u64, name: &str, params: Vec<Parameter>) -> EntityInstance {
    EntityInstance::Simple {
        id,
        record: Record {
            name: name.to_string(),
            parameter: Parameter::List(params),
        },
    }
}

fn r(id: u64) -> Parameter {
    Parameter::Ref(Name::Entity(id))
}

fn refs(ids: &[u64]) -> Parameter {
    Parameter::List(ids.iter().map(|id| r(*id)).collect())
}

fn label() -> Parameter {
    Parameter::String(String::new())
}

fn word(value: &str) -> Parameter {
    Parameter::Enumeration(value.to_string())
}

#[test]
fn windows_are_runs_of_places() {
    let ticks = vec![0, 10, 10, 20, 30, 47, 57];
    assert_eq!(
        find_windows(&ticks, 10, 3),
        vec![
            Window { start: 0, observations: 4 },
            Window { start: 10, observations: 4 },
        ]
    );
    assert_eq!(
        find_windows(&ticks, 10, 2),
        vec![
            Window { start: 0, observations: 3 },
            Window { start: 10, observations: 3 },
            Window { start: 20, observations: 2 },
            Window { start: 47, observations: 2 },
        ]
    );
    assert!(find_windows(&vec![i64::MAX, i64::MIN], i64::MAX, 2).is_empty());
}

fn place(face: u64, sites: &[usize], wide: bool, gap: Option<usize>, sort: u64) -> FacePlace {
    FacePlace {
        face,
        sites: sites.to_vec(),
        wide,
        gap,
        sort,
        side: if face % 2 == 0 { Side::Negative } else { Side::Positive },
    }
}

#[test]
fn faces_have_their_parts() {
    let places = vec![
        place(12, &[1], false, None, 0),
        place(11, &[0], false, None, 0),
        place(13, &[2], false, None, 0),
        place(21, &[], false, Some(0), 5),
        place(22, &[], false, Some(1), 5),
        place(24, &[], false, Some(1), 6),
        place(23, &[], false, Some(2), 5),
        place(31, &[], true, None, 0),
        place(41, &[], false, None, 0),
        place(42, &[0, 1], false, None, 0),
        place(14, &[3], false, None, 0),
    ];
    let partition = classify_faces(&places, 4).unwrap();
    assert_eq!(partition.sites, vec![vec![11], vec![12], vec![13], vec![14]]);
    assert_eq!(partition.gaps, vec![vec![21], vec![22], vec![23]]);
    assert_eq!(partition.stretch, vec![31]);
    assert_eq!(partition.negative, vec![24, 42]);
    assert_eq!(partition.positive, vec![41]);
    assert!(partition.middle.is_empty());
    assert!(classify_faces(&places, 1).is_none());

    assert_eq!(face_category(13, &partition), FacePart::Site(2));
    assert_eq!(face_category(22, &partition), FacePart::Gap(1));
    assert_eq!(face_category(31, &partition), FacePart::Stretch);
    assert_eq!(face_category(24, &partition), FacePart::Fixed);
    assert_eq!(face_category(99, &partition), FacePart::Unknown);

    let around = |face: u64, edges: &[u64]| FaceEdges {
        face,
        edges: edges.to_vec(),
    };
    let faces = vec![
        around(11, &[1]),
        around(21, &[1, 2]),
        around(12, &[2, 3]),
        around(31, &[3]),
        around(41, &[4]),
    ];
    let links = find_links(&partition, &faces);
    assert_eq!(
        links,
        vec![
            EdgeLink {
                first: FacePart::Site(0),
                second: FacePart::Gap(0)
            },
            EdgeLink {
                first: FacePart::Gap(0),
                second: FacePart::Site(1)
            },
            EdgeLink {
                first: FacePart::Site(1),
                second: FacePart::Stretch
            },
        ]
    );
    assert_eq!(
        find_neighbours(&links, FacePart::Gap(0)),
        vec![NeighbourLabel::Site(0), NeighbourLabel::Site(1)]
    );
    assert_eq!(
        find_neighbours(&links, FacePart::Site(1)),
        vec![NeighbourLabel::Gap(-1), NeighbourLabel::Stretch]
    );
    assert!(find_neighbours(&links, FacePart::Stretch).is_empty());
}

fn row(items: &[u64]) -> InstancePattern {
    InstancePattern {
        parent_representation: 1,
        representation_map: 2,
        item_ids: items.to_vec(),
        style_signature: Vec::new(),
        dimension: 1,
        origin: [0; 3],
        basis: vec![[1.0f64.to_bits(), 0, 0]],
        pitch: vec![1.0f64.to_bits()],
        occupancy: (0..items.len() as i64).map(|k| [k, 0]).collect(),
        grid_shape: vec![items.len()],
        fill_ratio: 1.0f64.to_bits(),
        max_residual: 0,
    }
}

fn fit(like: &[usize]) -> Option<RowFit> {
    Some(RowFit {
        axis: [1.0f64.to_bits(), 0, 0],
        pitch: 1.0f64.to_bits(),
        like: like.to_vec(),
    })
}

#[test]
fn rows_that_agree_are_one_lattice() {
    let patterns = vec![
        row(&[1, 2, 3, 4]),
        row(&[5, 6, 7, 8]),
        row(&[1, 2, 3]),
        row(&[1, 2, 3, 4, 5]),
    ];
    assert_eq!(
        lattice_candidates(&patterns, &vec![fit(&[]), fit(&[0]), fit(&[]), fit(&[0])]),
        vec![0, 3]
    );
    assert_eq!(
        lattice_candidates(&patterns, &vec![None, fit(&[0]), fit(&[]), fit(&[1])]),
        vec![1, 3]
    );
}

fn solid_with(id: u64, faces: &[u64]) -> Vec<EntityInstance> {
    vec![
        entity(id + 1, "CLOSED_SHELL", vec![label(), refs(faces)]),
        entity(id, "MANIFOLD_SOLID_BREP", vec![label(), r(id + 1)]),
    ]
}

#[test]
fn solids_follow_rows() {
    let sites = 4u64;
    let faces: Vec<u64> = (100..100 + 4 * sites + 2).collect();
    let mut entities = solid_with(10, &faces);
    entities.extend(solid_with(20, &faces[..6]));
    assert_eq!(find_solids(&entities), vec![10, 20]);
    let mut measures = HashMap::new();
    for (k, face) in faces.iter().enumerate() {
        let k = k as u64;
        if k < 4 * sites {
            measures.insert(
                *face,
                FaceMeasure {
                    family: k % 4,
                    place: 100 - k / 4,
                    long: false,
                },
            );
        } else if k == 4 * sites {
            measures.insert(
                *face,
                FaceMeasure {
                    family: 77,
                    place: 0,
                    long: true,
                },
            );
        }
    }
    let family = |rank: u64, residual: f64| FamilyMeasure {
        regular: true,
        rank,
        phase: 0,
        span: 0,
        orthogonal_center: [0; 2],
        bounds: 1,
        edges: 4,
        residual: residual.to_bits(),
    };
    let families: HashMap<u64, FamilyMeasure> =
        (0..4).map(|k| (k, family(9 - k, k as f64))).collect();
    let of_solid = SolidMeasure {
        faces: measures,
        families,
    };
    let nothing = SolidMeasure {
        faces: HashMap::new(),
        families: HashMap::new(),
    };
    let found = detect_periodic_bodies(
        &entities,
        &vec![row(&[1, 2, 3, 4]), row(&[5, 6, 7, 8])],
        &vec![fit(&[]), fit(&[0])],
        &vec![vec![of_solid, nothing]],
    );
    assert_eq!(found.len(), 1);
    let body = &found[0];
    assert_eq!(body.solid_id, 10);
    assert_eq!(body.sites, 4);
    assert_eq!(body.coupled_instance_patterns, vec![0, 1]);
    assert_eq!(body.repeat_faces, 16);
    assert_eq!(body.faces_per_site, 4);
    assert_eq!(body.total_faces, 18);
    assert_eq!(body.stretch_face_ids, vec![116]);
    assert_eq!(body.fixed_face_ids, vec![117]);
    assert_eq!(body.max_residual, 3.0f64.to_bits());
    assert_eq!(body.repeat_face_families.len(), 4);
    assert_eq!(body.repeat_face_families[0].face_ids, vec![115, 111, 107, 103]);
    assert_eq!(body.repeat_face_families[3].face_ids, vec![112, 108, 104, 100]);
}

#[test]
fn instances_are_grouped_and_form_lattices() {
    let mut entities = vec![
        entity(2, "REPRESENTATION_MAP", vec![r(90), r(91)]),
        entity(3, "REPRESENTATION_MAP", vec![r(90), r(92)]),
    ];
    for id in [14, 11, 12, 13, 15, 16, 17] {
        let map = if id == 15 { 3 } else { 2 };
        entities.push(entity(id, "MAPPED_ITEM", vec![label(), r(map), r(80)]));
    }
    entities.push(entity(
        50,
        "SHAPE_REPRESENTATION",
        vec![label(), refs(&[11, 12, 13, 14, 15, 16]), r(60)],
    ));
    entities.push(entity(
        51,
        "ADVANCED_BREP_SHAPE_REPRESENTATION",
        vec![label(), refs(&[16]), r(60)],
    ));
    for (id, target) in [(70, 11), (71, 12), (72, 13), (73, 14)] {
        entities.push(entity(
            id,
            "STYLED_ITEM",
            vec![label(), refs(&[5]), r(target)],
        ));
    }
    let orientation = [11, 12, 13, 14, 15, 16, 17].map(|id| (id, 1)).into();
    let groups = find_instance_groups(&entities, &orientation);
    assert_eq!(groups.len(), 2);
    assert_eq!(groups[0].parent, 50);
    assert_eq!(groups[0].map, 2);
    assert_eq!(groups[0].items, vec![11, 12, 13, 14]);
    assert_eq!(groups[0].styles, vec![vec![5]]);
    assert_eq!(groups[1].items, vec![15]);
    let fit = LatticeFit {
        dimension: 1,
        origin: [0; 3],
        basis: vec![[1, 2, 3]],
        pitch: vec![4],
        occupancy: vec![[3, 0], [1, 0], [2, 0], [0, 0]],
        grid_shape: vec![4],
        fill_ratio: 1.0f64.to_bits(),
        max_residual: 7,
    };
    let patterns = instance_patterns(groups, vec![Some(fit), None], 2);
    assert_eq!(patterns.len(), 1);
    assert_eq!(patterns[0].item_ids, vec![14, 12, 13, 11]);
    assert_eq!(patterns[0].occupancy, vec![[0, 0], [1, 0], [2, 0], [3, 0]]);
    assert_eq!(patterns[0].max_residual, 7);
    let groups = find_instance_groups(&entities, &orientation);
    assert!(instance_patterns(groups, Vec::new(), 1).is_empty());
}

fn cylinders(inner: u64, outer: u64, ticks: i64) -> SheetCylinderPair {
    SheetCylinderPair {
        inner_face_id: inner,
        outer_face_id: outer,
        inner_radius: 0,
        outer_radius: 0,
        axis: [0; 3],
        ticks,
    }
}

#[test]
fn sheets_have_the_likeliest_thickness() {
    let pairs = vec![
        cylinders(1, 2, 100),
        cylinders(3, 4, 100),
        cylinders(1, 4, 250),
        cylinders(5, 6, 100),
        cylinders(7, 8, 250),
        cylinders(7, 6, 250),
        cylinders(9, 9, -5),
    ];
    let measure = |solid_id: u64, cylinders: usize, separations: &[i64]| SheetMeasure {
        solid_id,
        cylinders,
        planes: 4,
        pairs: pairs.clone(),
        separations: separations.to_vec(),
    };
    let measures = vec![
        measure(10, 12, &[100, 100, 7]),
        measure(11, 8, &[250, 250, 100, 250]),
        measure(12, 8, &[100]),
        measure(13, 5, &[100, 100]),
    ];
    let sheets = detect_formed_sheet_evidence(&measures);
    assert_eq!(sheets.len(), 2);
    assert_eq!(sheets[0].solid_id, 11);
    assert_eq!(sheets[0].thickness, 250);
    assert_eq!(sheets[0].paired_cylindrical_faces, 5);
    assert_eq!(sheets[0].parallel_plane_pairs, 3);
    assert_eq!(sheets[1].solid_id, 10);
    assert_eq!(sheets[1].thickness, 100);
    assert_eq!(sheets[1].coaxial_radius_pairs, 3);
    assert_eq!(sheets[1].cylinder_pairs.len(), 3);
}

#[test]
fn faces_have_loops() {
    let point = |id: u64| {
        let zero = || Parameter::Real("0.".to_string());
        entity(
            id,
            "CARTESIAN_POINT",
            vec![label(), Parameter::List(vec![zero(), zero(), zero()])],
        )
    };
    let mut entities = vec![point(1), point(2)];
    entities.push(entity(3, "VERTEX_POINT", vec![label(), r(1)]));
    entities.push(entity(4, "VERTEX_POINT", vec![label(), r(2)]));
    let curve = vec![label(), r(3), r(4), r(90), word("F")];
    entities.push(entity(5, "EDGE_CURVE", curve));
    let along = |way: &str| {
        vec![label(), Parameter::NotProvided, Parameter::NotProvided, r(5), word(way)]
    };
    entities.push(entity(6, "ORIENTED_EDGE", along("T")));
    entities.push(entity(7, "ORIENTED_EDGE", along("F")));
    entities.push(entity(8, "EDGE_LOOP", vec![label(), refs(&[6])]));
    entities.push(entity(9, "EDGE_LOOP", vec![label(), refs(&[7])]));
    entities.push(entity(10, "FACE_OUTER_BOUND", vec![label(), r(8), word("T")]));
    entities.push(entity(11, "FACE_BOUND", vec![label(), r(9), word("F")]));
    entities.push(entity(
        12,
        "ADVANCED_FACE",
        vec![label(), refs(&[10, 11]), r(91), word("T")],
    ));
    entities.extend(solid_with(20, &[12]));
    let index = build_index(&entities);
    let loops = face_loops(12, &entities, &index).unwrap();
    assert_eq!(loops.len(), 2);
    assert!(loops[0].outer && loops[0].orientation);
    assert!(!loops[1].outer && !loops[1].orientation);
    assert_eq!(loops[0].edges[0].start_vertex, 3);
    assert_eq!(loops[0].edges[0].end_vertex, 4);
    assert!(!loops[0].edges[0].parameter_forward);
    assert_eq!(loops[1].edges[0].start_vertex, 4);
    assert!(loops[1].edges[0].parameter_forward);
    assert_eq!(loops[1].edges[0].curve_id, 90);
    assert_eq!(solid_face_ids(20, &entities, &index), Some(vec![12]));
    assert_eq!(face_sense(12, &entities, &index), Some("T".to_string()));
    assert_eq!(matching_plane_bound(12, &vec![5], &entities, &index), Some(11));
    assert_eq!(matching_plane_bound(12, &vec![5, 6], &entities, &index), None);
}
