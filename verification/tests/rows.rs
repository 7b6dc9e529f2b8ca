use std::collections::{HashMap, HashSet};
use step_redox::ast::{EntityInstance, Name, Parameter, Record};
use step_redox::face_coalesce::coalesce_same_support_faces;
use step_redox::graph::build_index;
use step_redox::instances::{instance_z90_solids, InstanceEvidence, Turn};
use step_redox::pattern_resize::{
    resize_filled_linear_pattern, row_shift, row_sites, HalfSteps, PatternError, Site,
};
use step_redox::patterns::{InstancePattern, PatternAnchor};
use step_redox::placements::Place;
use step_redox::planar_features::{
    instance_planar_positive_features, Offset, PlanarEvidence,
};
use step_redox::planar_plan::FeatureMeasure;
use step_redox::section_edits::{
    expand_periodic_body_bytes, resize_linear_pattern_bytes, SectionError,
};
use step_redox::body_rows::BodyEvidence;

type Point = [i64; 3];

fn r(id: u64) -> Parameter {
    Parameter::Ref(Name::Entity(id))
}

fn refs(ids: &[u64]) -> Parameter {
    Parameter::List(ids.iter().map(|id| r(*id)).collect())
}

fn label() -> Parameter {
    Parameter::String(String::new())
}

fn word(text: &str) -> Parameter {
    Parameter::Enumeration(text.to_string())
}

/// Builds bodies out of faces that are given by their corners.
struct Builder {
    entities: Vec<EntityInstance>,
    vertices: HashMap<Point, u64>,
    edges: HashMap<(u64, u64), u64>,
    next: u64,
}

impl Builder {
    fn new() -> Builder {
        Builder {
            entities: Vec::new(),
            vertices: HashMap::new(),
            edges: HashMap::new(),
            next: 1,
        }
    }

    fn push(&mut self, name: &str, params: Vec<Parameter>) -> u64 {
        let id = self.next;
        self.next += 1;
        self.entities.push(EntityInstance::Simple {
            id,
            record: Record {
                name: name.to_string(),
                parameter: Parameter::List(params),
            },
        });
        id
    }

    fn point(&mut self, at: Point) -> u64 {
        let coords = at.iter().map(|v| Parameter::Real(v.to_string())).collect();
        self.push("CARTESIAN_POINT", vec![label(), Parameter::List(coords)])
    }

    fn vertex(&mut self, at: Point) -> u64 {
        if let Some(id) = self.vertices.get(&at) {
            return *id;
        }
        let point = self.point(at);
        let id = self.push("VERTEX_POINT", vec![label(), r(point)]);
        self.vertices.insert(at, id);
        id
    }

    fn oriented(&mut self, a: Point, b: Point) -> u64 {
        let start = self.vertex(a);
        let end = self.vertex(b);
        let (edge, way) = if let Some(edge) = self.edges.get(&(start, end)) {
            (*edge, "T")
        } else if let Some(edge) = self.edges.get(&(end, start)) {
            (*edge, "F")
        } else {
            let point = self.point(a);
            let line = self.push("LINE", vec![label(), r(point)]);
            let edge = self.push(
                "EDGE_CURVE",
                vec![label(), r(start), r(end), r(line), word("T")],
            );
            self.edges.insert((start, end), edge);
            (edge, "T")
        };
        self.push(
            "ORIENTED_EDGE",
            vec![label(), Parameter::Omitted, Parameter::Omitted, r(edge), word(way)],
        )
    }

    fn face(&mut self, corners: &[Point]) -> u64 {
        let mut oes = Vec::new();
        for k in 0..corners.len() {
            oes.push(self.oriented(corners[k], corners[(k + 1) % corners.len()]));
        }
        let edge_loop = self.push("EDGE_LOOP", vec![label(), refs(&oes)]);
        let bound = self.push("FACE_OUTER_BOUND", vec![label(), r(edge_loop), word("T")]);
        let point = self.point(corners[0]);
        let plane = self.push("PLANE", vec![label(), r(point)]);
        self.push(
            "ADVANCED_FACE",
            vec![label(), refs(&[bound]), r(plane), word("T")],
        )
    }

    fn solid(&mut self, faces: &[u64]) -> u64 {
        let shell = self.push("CLOSED_SHELL", vec![label(), refs(faces)]);
        self.push("MANIFOLD_SOLID_BREP", vec![label(), r(shell)])
    }

    fn forget_shared(&mut self) {
        self.vertices.clear();
        self.edges.clear();
    }

    fn cuboid(&mut self, lo: Point, hi: Point) -> (u64, Vec<u64>) {
        self.forget_shared();
        let p = |x: usize, y: usize, z: usize| {
            [
                if x == 0 { lo[0] } else { hi[0] },
                if y == 0 { lo[1] } else { hi[1] },
                if z == 0 { lo[2] } else { hi[2] },
            ]
        };
        let faces = vec![
            self.face(&[p(0, 0, 0), p(0, 0, 1), p(0, 1, 1), p(0, 1, 0)]),
            self.face(&[p(1, 0, 0), p(1, 1, 0), p(1, 1, 1), p(1, 0, 1)]),
            self.face(&[p(0, 0, 0), p(1, 0, 0), p(1, 0, 1), p(0, 0, 1)]),
            self.face(&[p(0, 1, 0), p(0, 1, 1), p(1, 1, 1), p(1, 1, 0)]),
            self.face(&[p(0, 0, 0), p(0, 1, 0), p(1, 1, 0), p(1, 0, 0)]),
            self.face(&[p(0, 0, 1), p(1, 0, 1), p(1, 1, 1), p(0, 1, 1)]),
        ];
        let solid = self.solid(&faces);
        (solid, faces)
    }
}

fn params(entities: &Vec<EntityInstance>, index: &HashMap<u64, usize>, id: u64) -> Vec<Parameter> {
    match &entities[index[&id]] {
        EntityInstance::Simple { record, .. } => match &record.parameter {
            Parameter::List(list) => list.clone(),
            _ => panic!("#{id} has no parameters"),
        },
        EntityInstance::Complex { .. } => panic!("#{id} is complex"),
    }
}

fn id_of(param: &Parameter) -> u64 {
    match param {
        Parameter::Ref(Name::Entity(id)) => *id,
        other => panic!("{other:?}"),
    }
}

fn ids_of(param: &Parameter) -> Vec<u64> {
    match param {
        Parameter::List(items) => items.iter().map(id_of).collect(),
        other => panic!("{other:?}"),
    }
}

fn point_at(entities: &Vec<EntityInstance>, index: &HashMap<u64, usize>, id: u64) -> Point {
    match &params(entities, index, id)[1] {
        Parameter::List(coords) => {
            let mut out = [0; 3];
            for (k, coord) in coords.iter().enumerate() {
                match coord {
                    Parameter::Real(text) => out[k] = text.parse::<i64>().unwrap(),
                    other => panic!("{other:?}"),
                }
            }
            out
        }
        other => panic!("{other:?}"),
    }
}

fn of_type(entities: &Vec<EntityInstance>, name: &str) -> Vec<u64> {
    let mut out = Vec::new();
    for entity in entities {
        if let EntityInstance::Simple { id, record } = entity {
            if record.name == name {
                out.push(*id);
            }
        }
    }
    out
}


fn place(x: i64) -> Place {
    Place {
        quarter: 0,
        x: x.to_string(),
        y: "0".to_string(),
        z: "0".to_string(),
    }
}

fn boxes_in_a_row(count: i64) -> (Builder, Vec<u64>) {
    let mut b = Builder::new();
    let mut solids = Vec::new();
    for k in 0..count {
        solids.push(b.cuboid([4 * k, 0, 0], [4 * k + 1, 1, 1]).0);
    }
    let context = b.push("REPRESENTATION_CONTEXT", vec![label(), label()]);
    let look = b.push("PRESENTATION_STYLE_ASSIGNMENT", vec![Parameter::List(Vec::new())]);
    let mut items = Vec::new();
    for solid in &solids {
        items.push(b.push("STYLED_ITEM", vec![label(), refs(&[look]), r(*solid)]));
    }
    b.push(
        "ADVANCED_BREP_SHAPE_REPRESENTATION",
        vec![label(), refs(&solids), r(context)],
    );
    b.push(
        "MECHANICAL_DESIGN_GEOMETRIC_PRESENTATION_REPRESENTATION",
        vec![label(), refs(&items), r(context)],
    );
    (b, solids)
}

fn face_styled(b: &mut Builder, faces: &[u64], look: u64) -> Vec<u64> {
    let mut items = Vec::new();
    for face in faces {
        items.push(b.push("STYLED_ITEM", vec![label(), refs(&[look]), r(*face)]));
    }
    items
}

#[test]
fn like_solids_become_instances() {
    let mut b = Builder::new();
    let mut solids = Vec::new();
    let mut items = Vec::new();
    let look = b.push("PRESENTATION_STYLE_ASSIGNMENT", vec![Parameter::List(Vec::new())]);
    for k in 0..3 {
        let (solid, faces) = b.cuboid([4 * k, 0, 0], [4 * k + 1, 1, 1]);
        items.extend(face_styled(&mut b, &faces, look));
        solids.push(solid);
    }
    let context = b.push("REPRESENTATION_CONTEXT", vec![label(), label()]);
    let parent = b.push(
        "ADVANCED_BREP_SHAPE_REPRESENTATION",
        vec![label(), refs(&solids), r(context)],
    );
    b.push(
        "MECHANICAL_DESIGN_GEOMETRIC_PRESENTATION_REPRESENTATION",
        vec![label(), refs(&items), r(context)],
    );
    let mut entities = b.entities;
    let turn = |k: usize| Turn {
        source: solids[0],
        target: solids[k],
        place: place(4 * k as i64),
    };
    let evidence = InstanceEvidence {
        shape_class: solids.iter().map(|id| (*id, 1)).collect(),
        turns: vec![turn(1), turn(2)],
    };
    let stats = instance_z90_solids(&mut entities, &evidence);
    assert_eq!(stats.groups, 1);
    assert_eq!(stats.solids_replaced, 3);
    assert_eq!(of_type(&entities, "MANIFOLD_SOLID_BREP").len(), 1);
    assert_eq!(of_type(&entities, "REPRESENTATION_MAP").len(), 1);
    assert_eq!(of_type(&entities, "MAPPED_ITEM").len(), 3);
    let index = build_index(&entities);
    let listed = ids_of(&params(&entities, &index, parent)[1]);
    assert_eq!(listed.len(), 3);
    let mapped: HashSet<u64> = of_type(&entities, "MAPPED_ITEM").into_iter().collect();
    assert!(listed.iter().all(|id| mapped.contains(id)), "{listed:?}");
}

fn edge_between(b: &mut Builder, from: Point, to: Point) -> u64 {
    b.oriented(from, to)
}

/// A plate with bumps in a row on its top.
fn bumpy_plate(bumps: i64) -> (Builder, u64, Vec<Vec<u64>>) {
    let mut b = Builder::new();
    let end = 4 * bumps;
    let p = |x: i64, y: i64, z: i64| [x, y, z];
    let mut faces = vec![
        b.face(&[p(0, 0, 0), p(0, 0, 1), p(0, 4, 1), p(0, 4, 0)]),
        b.face(&[p(end, 0, 0), p(end, 4, 0), p(end, 4, 1), p(end, 0, 1)]),
        b.face(&[p(0, 0, 0), p(end, 0, 0), p(end, 0, 1), p(0, 0, 1)]),
        b.face(&[p(0, 4, 0), p(0, 4, 1), p(end, 4, 1), p(end, 4, 0)]),
        b.face(&[p(0, 0, 0), p(0, 4, 0), p(end, 4, 0), p(end, 0, 0)]),
    ];
    let mut groups = Vec::new();
    for k in 0..bumps {
        let (x0, x1) = (4 * k + 1, 4 * k + 3);
        let group = vec![
            b.face(&[p(x0, 1, 1), p(x0, 1, 2), p(x0, 3, 2), p(x0, 3, 1)]),
            b.face(&[p(x1, 1, 1), p(x1, 3, 1), p(x1, 3, 2), p(x1, 1, 2)]),
            b.face(&[p(x0, 1, 1), p(x1, 1, 1), p(x1, 1, 2), p(x0, 1, 2)]),
            b.face(&[p(x0, 3, 1), p(x0, 3, 2), p(x1, 3, 2), p(x1, 3, 1)]),
            b.face(&[p(x0, 1, 2), p(x1, 1, 2), p(x1, 3, 2), p(x0, 3, 2)]),
        ];
        faces.extend(&group);
        groups.push(group);
    }
    let corners = [p(0, 0, 1), p(end, 0, 1), p(end, 4, 1), p(0, 4, 1)];
    let mut outer = Vec::new();
    for k in 0..4 {
        outer.push(edge_between(&mut b, corners[k], corners[(k + 1) % 4]));
    }
    let edge_loop = b.push("EDGE_LOOP", vec![label(), refs(&outer)]);
    let mut bounds = vec![b.push("FACE_OUTER_BOUND", vec![label(), r(edge_loop), word("T")])];
    for k in 0..bumps {
        let (x0, x1) = (4 * k + 1, 4 * k + 3);
        let corners = [p(x0, 1, 1), p(x0, 3, 1), p(x1, 3, 1), p(x1, 1, 1)];
        let mut inner = Vec::new();
        for k in 0..4 {
            inner.push(edge_between(&mut b, corners[k], corners[(k + 1) % 4]));
        }
        let edge_loop = b.push("EDGE_LOOP", vec![label(), refs(&inner)]);
        bounds.push(b.push("FACE_BOUND", vec![label(), r(edge_loop), word("T")]));
    }
    let point = b.point([0, 0, 1]);
    let plane = b.push("PLANE", vec![label(), r(point)]);
    let host = b.push("ADVANCED_FACE", vec![label(), refs(&bounds), r(plane), word("T")]);
    faces.push(host);
    let solid = b.solid(&faces);
    let context = b.push("REPRESENTATION_CONTEXT", vec![label(), label()]);
    b.push(
        "ADVANCED_BREP_SHAPE_REPRESENTATION",
        vec![label(), refs(&[solid]), r(context)],
    );
    (b, host, groups)
}

fn planar_evidence(host: u64, groups: &Vec<Vec<u64>>) -> PlanarEvidence {
    let mut measures = Vec::new();
    let mut offsets = Vec::new();
    for (k, group) in groups.iter().enumerate() {
        measures.push(FeatureMeasure {
            host,
            faces: group.clone(),
            class: 1,
            quarter: 0,
        });
        offsets.push(Offset {
            host,
            source: groups[0][0],
            target: group[0],
            x: (4 * k).to_string(),
            y: "0".to_string(),
            z: "0".to_string(),
            still: k == 0,
        });
    }
    PlanarEvidence {
        flat: HashSet::from([host]),
        measures,
        offsets,
    }
}

#[test]
fn bumps_on_a_plate_become_instances() {
    let (b, host, groups) = bumpy_plate(9);
    let mut entities = b.entities;
    let evidence = planar_evidence(host, &groups);
    let stats = instance_planar_positive_features(&mut entities, &evidence);
    assert_eq!(stats.arrays, 1);
    assert_eq!(stats.families, 1);
    assert_eq!(stats.instances, 9);
    assert_eq!(of_type(&entities, "MAPPED_ITEM").len(), 9);
    assert_eq!(of_type(&entities, "REPRESENTATION_MAP").len(), 1);
    assert_eq!(of_type(&entities, "ADVANCED_FACE").len(), 6 + 5 + 1);
    let index = build_index(&entities);
    assert_eq!(ids_of(&params(&entities, &index, host)[1]).len(), 1);
}

#[test]
fn a_few_bumps_stay() {
    let (b, host, groups) = bumpy_plate(7);
    let mut entities = b.entities;
    let before = entities.len();
    let stats =
        instance_planar_positive_features(&mut entities, &planar_evidence(host, &groups));
    assert_eq!(stats.instances, 0);
    assert_eq!(entities.len(), before);
}

#[test]
fn faces_on_one_surface_become_one() {
    let mut b = Builder::new();
    let left = b.face(&[[0, 0, 0], [1, 0, 0], [1, 1, 0], [0, 1, 0]]);
    let right = b.face(&[[1, 0, 0], [2, 0, 0], [2, 1, 0], [1, 1, 0]]);
    let other = b.face(&[[0, 0, 0], [0, 1, 0], [0, 1, 1], [0, 0, 1]]);
    let shell = b.push("OPEN_SHELL", vec![label(), refs(&[left, right, other])]);
    let mut entities = b.entities;
    let surface = {
        let index = build_index(&entities);
        id_of(&params(&entities, &index, left)[2])
    };
    for entity in &mut entities {
        if let EntityInstance::Simple { id, record } = entity {
            if *id == right {
                if let Parameter::List(list) = &mut record.parameter {
                    list[2] = r(surface);
                }
            }
        }
    }
    let stats = coalesce_same_support_faces(&mut entities);
    assert_eq!(stats.groups, 1);
    assert_eq!(stats.faces_removed, 1);
    assert_eq!(stats.internal_edges_removed, 1);
    let index = build_index(&entities);
    let faces = ids_of(&params(&entities, &index, shell)[1]);
    assert_eq!(faces.len(), 2);
    assert_eq!(of_type(&entities, "EDGE_CURVE").len(), 6 + 3);
}

/// Instances of one shape in a row.
fn row_of_instances(count: u64) -> (Builder, InstancePattern) {
    let (mut b, solids) = boxes_in_a_row(1);
    let context = b.push("REPRESENTATION_CONTEXT", vec![label(), label()]);
    let z = b.push("DIRECTION", vec![label(), numbers(&["0", "0", "1"])]);
    let x = b.push("DIRECTION", vec![label(), numbers(&["1", "0", "0"])]);
    let zero = b.point([0, 0, 0]);
    let origin = b.push("AXIS2_PLACEMENT_3D", vec![label(), r(zero), r(z), r(x)]);
    let part = b.push("SHAPE_REPRESENTATION", vec![label(), refs(&solids), r(context)]);
    let map = b.push("REPRESENTATION_MAP", vec![r(origin), r(part)]);
    let look = b.push("PRESENTATION_STYLE_ASSIGNMENT", vec![Parameter::List(Vec::new())]);
    let mut items = Vec::new();
    let mut styles = Vec::new();
    for k in 0..count {
        let point = b.point([4 * k as i64, 0, 0]);
        let target = b.push("AXIS2_PLACEMENT_3D", vec![label(), r(point), r(z), r(x)]);
        let item = b.push("MAPPED_ITEM", vec![label(), r(map), r(target)]);
        items.push(item);
        styles.push(b.push("STYLED_ITEM", vec![label(), refs(&[look]), r(item)]));
    }
    let parent = b.push("SHAPE_REPRESENTATION", vec![label(), refs(&items), r(context)]);
    b.push(
        "MECHANICAL_DESIGN_GEOMETRIC_PRESENTATION_REPRESENTATION",
        vec![label(), refs(&styles), r(context)],
    );
    let pattern = InstancePattern {
        parent_representation: parent,
        representation_map: map,
        item_ids: items,
        style_signature: Vec::new(),
        dimension: 1,
        origin: [0; 3],
        basis: vec![[1.0f64.to_bits(), 0, 0]],
        pitch: vec![4.0f64.to_bits()],
        occupancy: (0..count as i64).map(|k| [k, 0]).collect(),
        grid_shape: vec![count as usize],
        fill_ratio: 1.0f64.to_bits(),
        max_residual: 0,
    };
    (b, pattern)
}

fn numbers(texts: &[&str]) -> Parameter {
    Parameter::List(texts.iter().map(|t| Parameter::Real(t.to_string())).collect())
}

/// Places two apart, as the half-steps of a row whose instances are four apart.
fn steps() -> HalfSteps {
    HalfSteps {
        first: -20,
        places: (-20..=40)
            .map(|half: i64| Site {
                x: (2 * half).to_string(),
                y: "0".to_string(),
                z: "0".to_string(),
            })
            .collect(),
    }
}

fn item_places(entities: &Vec<EntityInstance>, parent: u64) -> Vec<i64> {
    let index = build_index(entities);
    ids_of(&params(entities, &index, parent)[1])
        .iter()
        .map(|item| {
            let target = id_of(&params(entities, &index, *item)[2]);
            point_at(entities, &index, id_of(&params(entities, &index, target)[1]))[0]
        })
        .collect()
}

#[test]
fn a_row_grows_and_shrinks() {
    let (b, pattern) = row_of_instances(4);
    let mut entities = b.entities;
    let stats = resize_filled_linear_pattern(&mut entities, &pattern, 6, PatternAnchor::Start, &steps()).unwrap();
    assert_eq!(stats.old_count, 4);
    assert_eq!(stats.new_count, 6);
    assert_eq!(stats.reused_items, 4);
    assert_eq!(stats.added_items, 2);
    assert_eq!(stats.removed_items, 0);
    assert_eq!(item_places(&entities, pattern.parent_representation), vec![0, 4, 8, 12, 16, 20]);

    let (b, pattern) = row_of_instances(4);
    let mut entities = b.entities;
    let stats = resize_filled_linear_pattern(&mut entities, &pattern, 2, PatternAnchor::Start, &steps()).unwrap();
    assert_eq!(stats.removed_items, 2);
    assert_eq!(item_places(&entities, pattern.parent_representation), vec![0, 4]);
    assert_eq!(of_type(&entities, "MAPPED_ITEM").len(), 2);
}

#[test]
fn a_row_keeps_an_end_or_its_middle() {
    let at = |count: usize, anchor: PatternAnchor| {
        let (b, pattern) = row_of_instances(4);
        let mut entities = b.entities;
        resize_filled_linear_pattern(&mut entities, &pattern, count, anchor, &steps()).unwrap();
        item_places(&entities, pattern.parent_representation)
    };
    assert_eq!(at(5, PatternAnchor::Start), vec![0, 4, 8, 12, 16]);
    assert_eq!(at(5, PatternAnchor::End), vec![-4, 0, 4, 8, 12]);
    assert_eq!(at(5, PatternAnchor::Center), vec![-2, 2, 6, 10, 14]);
    assert_eq!(at(3, PatternAnchor::End), vec![4, 8, 12]);
    assert_eq!(at(3, PatternAnchor::Center), vec![2, 6, 10]);
    assert_eq!(row_shift(PatternAnchor::Start, 4, 9), 0);
    assert_eq!(row_shift(PatternAnchor::Center, 4, 9), -5);
    assert_eq!(row_shift(PatternAnchor::End, 4, 9), -10);

    let (b, pattern) = row_of_instances(4);
    let mut entities = b.entities;
    let out = resize_filled_linear_pattern(&mut entities, &pattern, 30, PatternAnchor::Start, &steps());
    assert_eq!(out.unwrap_err(), PatternError::NotMeasured);
    let sites = row_sites(&steps(), PatternAnchor::End, 4, 2).unwrap();
    assert_eq!(sites.iter().map(|site| site.x.as_str()).collect::<Vec<_>>(), vec!["8", "12"]);
}

#[test]
fn rows_that_cannot_be_resized_stay() {
    let (b, mut pattern) = row_of_instances(4);
    let mut entities = b.entities;
    let before = entities.len();
    let mut fault = |pattern: &InstancePattern, count: usize| {
        let out = resize_filled_linear_pattern(&mut entities, pattern, count, PatternAnchor::Start, &steps());
        assert_eq!(entities.len(), before);
        out.unwrap_err()
    };
    assert_eq!(fault(&pattern, 0), PatternError::NoInstanceLeft);
    pattern.dimension = 2;
    assert_eq!(fault(&pattern, 5), PatternError::NotOneDimensional);
    pattern.dimension = 1;
    pattern.fill_ratio = 0.5f64.to_bits();
    assert_eq!(fault(&pattern, 5), PatternError::NotFullyOccupied);
    pattern.fill_ratio = (1.0f64 - 1.0e-12).to_bits();
    pattern.occupancy[3] = [7, 0];
    assert_eq!(fault(&pattern, 5), PatternError::NotContiguous);
    pattern.occupancy[3] = [3, 0];
    let item = pattern.item_ids[1];
    pattern.item_ids[1] = 999_999;
    assert_eq!(fault(&pattern, 5), PatternError::MissingItem(999_999));
    pattern.item_ids[1] = item;
    pattern.representation_map = 1;
    assert_eq!(fault(&pattern, 5), PatternError::OtherMap(pattern.item_ids[0]));
}

fn wrap(data: &str) -> Vec<u8> {
    format!(
        "ISO-10303-21;\nHEADER;\nFILE_DESCRIPTION(('x'),'1');\nFILE_NAME('a','b',(''),(''),'x','y','');\nFILE_SCHEMA(('AUTOMOTIVE_DESIGN'));\nENDSEC;\nDATA;\n{data}\nENDSEC;\nEND-ISO-10303-21;\n"
    )
    .into_bytes()
}

fn no_evidence() -> BodyEvidence {
    BodyEvidence {
        has_axis: true,
        beyond: HashMap::new(),
        cap_spots: HashMap::new(),
        site_spots: Vec::new(),
        places: HashMap::new(),
        shifted: HashMap::new(),
        stepped: Vec::new(),
        rows: HashMap::new(),
        loops: HashMap::new(),
    }
}

#[test]
fn edits_of_things_that_are_not_there_fail() {
    let src = wrap("#1=CARTESIAN_POINT('',(0.,0.,0.));");
    assert!(matches!(
        expand_periodic_body_bytes(&src, &vec![Vec::new()], 0, 5, &no_evidence()),
        Err(SectionError::NotFound)
    ));
    assert!(matches!(
        expand_periodic_body_bytes(b"nothing", &Vec::new(), 0, 5, &no_evidence()),
        Err(SectionError::Read(_))
    ));
    let (_, pattern) = row_of_instances(4);
    assert!(matches!(
        resize_linear_pattern_bytes(&src, &vec![vec![pattern]], 0, 5, PatternAnchor::Start, &steps()),
        Err(SectionError::Row(PatternError::MissingItem(_)))
    ));
}
