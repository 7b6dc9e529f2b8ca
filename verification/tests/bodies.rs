use std::collections::{BTreeSet, HashMap, HashSet};
use step_redox::ast::{DataSection, EntityInstance, Exchange, Name, Parameter, Record};
use step_redox::body_bounds::{LoopMeasure, Winding};
use step_redox::body_copies::Spot;
use step_redox::body_cycles::{trace_cycles, Traversal};
use step_redox::body_graph::{edge_vertices, face_edges_ordered, BodyError};
use step_redox::body_plan::edges_for;
use step_redox::body_rows::{BodyEvidence, RowMeasure};
use step_redox::count_resize::{
    combine_count_edits, finish_count_edit, resize_count_parameter_bytes_one_side,
    resize_count_parameter_bytes_with_anchor, CountEdit, CountEditOutput, CountPlan, Semantics,
};
use step_redox::count_run::{
    next_need, resize_next_body, resize_next_row, resume_center, settle_edit, CountNeed,
};
use step_redox::graph::build_index;
use step_redox::instances::{instance_z90_solids, InstanceEvidence};
use step_redox::partition_plan::WeldEvidence;
use step_redox::partition_recovery::recover_partitioned_bodies;
use step_redox::parameters::RecoveredCountParameter;
use step_redox::pattern_resize::{HalfSteps, Site};
use step_redox::patterns::InstancePattern;
use step_redox::periodic_bodies::{PeriodicBodyPattern, PeriodicFaceFamily};
use step_redox::periodic_resize::{
    expand_periodic_body_positive, preview_copies, preview_edges, shrink_periodic_body_positive,
};

use step_redox::read::read_exchange;
use step_redox::resize::{CountAnchor, EditError};
use step_redox::write::write_exchange;

type Point = [i64; 3];

fn r(id: u64) -> Parameter {
    Parameter::Ref(Name::Entity(id))
}

fn refs(ids: &[u64]) -> Parameter {
    Parameter::List(ids.iter().map(|id| r(*id)).collect())
}

fn label() -> Parameter {
    Parameter::String(String::new())
}

fn word(text: &str) -> Parameter {
    Parameter::Enumeration(text.to_string())
}

/// Builds bodies out of faces that are given by their corners.
struct Builder {
    entities: Vec<EntityInstance>,
    vertices: HashMap<Point, u64>,
    edges: HashMap<(u64, u64), u64>,
    next: u64,
}

impl Builder {
    fn new() -> Builder {
        Builder {
            entities: Vec::new(),
            vertices: HashMap::new(),
            edges: HashMap::new(),
            next: 1,
        }
    }

    fn push(&mut self, name: &str, params: Vec<Parameter>) -> u64 {
        let id = self.next;
        self.next += 1;
        self.entities.push(EntityInstance::Simple {
            id,
            record: Record {
                name: name.to_string(),
                parameter: Parameter::List(params),
            },
        });
        id
    }

    fn point(&mut self, at: Point) -> u64 {
        let coords = at.iter().map(|v| Parameter::Real(v.to_string())).collect();
        self.push("CARTESIAN_POINT", vec![label(), Parameter::List(coords)])
    }

    fn vertex(&mut self, at: Point) -> u64 {
        if let Some(id) = self.vertices.get(&at) {
            return *id;
        }
        let point = self.point(at);
        let id = self.push("VERTEX_POINT", vec![label(), r(point)]);
        self.vertices.insert(at, id);
        id
    }

    fn oriented(&mut self, a: Point, b: Point) -> u64 {
        let start = self.vertex(a);
        let end = self.vertex(b);
        let (edge, way) = if let Some(edge) = self.edges.get(&(start, end)) {
            (*edge, "T")
        } else if let Some(edge) = self.edges.get(&(end, start)) {
            (*edge, "F")
        } else {
            let point = self.point(a);
            let line = self.push("LINE", vec![label(), r(point)]);
            let edge = self.push(
                "EDGE_CURVE",
                vec![label(), r(start), r(end), r(line), word("T")],
            );
            self.edges.insert((start, end), edge);
            (edge, "T")
        };
        self.push(
            "ORIENTED_EDGE",
            vec![label(), Parameter::Omitted, Parameter::Omitted, r(edge), word(way)],
        )
    }

    fn face(&mut self, corners: &[Point]) -> u64 {
        let mut oes = Vec::new();
        for k in 0..corners.len() {
            oes.push(self.oriented(corners[k], corners[(k + 1) % corners.len()]));
        }
        let edge_loop = self.push("EDGE_LOOP", vec![label(), refs(&oes)]);
        let bound = self.push("FACE_OUTER_BOUND", vec![label(), r(edge_loop), word("T")]);
        let point = self.point(corners[0]);
        let plane = self.push("PLANE", vec![label(), r(point)]);
        self.push(
            "ADVANCED_FACE",
            vec![label(), refs(&[bound]), r(plane), word("T")],
        )
    }

    fn solid(&mut self, faces: &[u64]) -> u64 {
        let shell = self.push("CLOSED_SHELL", vec![label(), refs(faces)]);
        self.push("MANIFOLD_SOLID_BREP", vec![label(), r(shell)])
    }

    fn forget_shared(&mut self) {
        self.vertices.clear();
        self.edges.clear();
    }

    fn cuboid(&mut self, lo: Point, hi: Point) -> (u64, Vec<u64>) {
        self.forget_shared();
        let p = |x: usize, y: usize, z: usize| {
            [
                if x == 0 { lo[0] } else { hi[0] },
                if y == 0 { lo[1] } else { hi[1] },
                if z == 0 { lo[2] } else { hi[2] },
            ]
        };
        let faces = vec![
            self.face(&[p(0, 0, 0), p(0, 0, 1), p(0, 1, 1), p(0, 1, 0)]),
            self.face(&[p(1, 0, 0), p(1, 1, 0), p(1, 1, 1), p(1, 0, 1)]),
            self.face(&[p(0, 0, 0), p(1, 0, 0), p(1, 0, 1), p(0, 0, 1)]),
            self.face(&[p(0, 1, 0), p(0, 1, 1), p(1, 1, 1), p(1, 1, 0)]),
            self.face(&[p(0, 0, 0), p(0, 1, 0), p(1, 1, 0), p(1, 0, 0)]),
            self.face(&[p(0, 0, 1), p(1, 0, 1), p(1, 1, 1), p(0, 1, 1)]),
        ];
        let solid = self.solid(&faces);
        (solid, faces)
    }
}

fn params(entities: &Vec<EntityInstance>, index: &HashMap<u64, usize>, id: u64) -> Vec<Parameter> {
    match &entities[index[&id]] {
        EntityInstance::Simple { record, .. } => match &record.parameter {
            Parameter::List(list) => list.clone(),
            _ => panic!("#{id} has no parameters"),
        },
        EntityInstance::Complex { .. } => panic!("#{id} is complex"),
    }
}

fn id_of(param: &Parameter) -> u64 {
    match param {
        Parameter::Ref(Name::Entity(id)) => *id,
        other => panic!("{other:?}"),
    }
}

fn ids_of(param: &Parameter) -> Vec<u64> {
    match param {
        Parameter::List(items) => items.iter().map(id_of).collect(),
        other => panic!("{other:?}"),
    }
}

fn point_at(entities: &Vec<EntityInstance>, index: &HashMap<u64, usize>, id: u64) -> Point {
    match &params(entities, index, id)[1] {
        Parameter::List(coords) => {
            let mut out = [0; 3];
            for (k, coord) in coords.iter().enumerate() {
                match coord {
                    Parameter::Real(text) => out[k] = text.parse::<i64>().unwrap(),
                    other => panic!("{other:?}"),
                }
            }
            out
        }
        other => panic!("{other:?}"),
    }
}

fn vertex_at(entities: &Vec<EntityInstance>, index: &HashMap<u64, usize>, id: u64) -> Point {
    point_at(entities, index, id_of(&params(entities, index, id)[1]))
}

fn of_type(entities: &Vec<EntityInstance>, name: &str) -> Vec<u64> {
    let mut out = Vec::new();
    for entity in entities {
        if let EntityInstance::Simple { id, record } = entity {
            if record.name == name {
                out.push(*id);
            }
        }
    }
    out
}

/// A bar with a notch at each of its sites, which are four units apart.
fn notched_bar(sites: i64) -> (Vec<EntityInstance>, PeriodicBodyPattern, u64) {
    let mut b = Builder::new();
    let end = 4 * sites;
    let mut families: Vec<Vec<u64>> = vec![Vec::new(); 4];
    let mut top: Vec<Point> = vec![[0, 2, 2], [0, 0, 2]];
    let mut front: Vec<Point> = vec![[0, 0, 0], [end, 0, 0], [end, 0, 2]];
    for site in 0..sites {
        let x0 = 4 * site + 1;
        let x1 = 4 * site + 3;
        families[0].push(b.face(&[[x0, 0, 1], [x0, 1, 1], [x0, 1, 2], [x0, 0, 2]]));
        families[1].push(b.face(&[[x1, 0, 1], [x1, 0, 2], [x1, 1, 2], [x1, 1, 1]]));
        families[2].push(b.face(&[[x0, 1, 1], [x1, 1, 1], [x1, 1, 2], [x0, 1, 2]]));
        families[3].push(b.face(&[[x0, 0, 1], [x1, 0, 1], [x1, 1, 1], [x0, 1, 1]]));
        top.extend([[x0, 0, 2], [x0, 1, 2], [x1, 1, 2], [x1, 0, 2]]);
        let back = 4 * (sites - 1 - site);
        front.extend([
            [back + 3, 0, 2],
            [back + 3, 0, 1],
            [back + 1, 0, 1],
            [back + 1, 0, 2],
        ]);
    }
    top.extend([[end, 0, 2], [end, 2, 2]]);
    front.push([0, 0, 2]);
    let stretch = vec![
        b.face(&top),
        b.face(&front),
        b.face(&[[0, 0, 0], [0, 2, 0], [end, 2, 0], [end, 0, 0]]),
        b.face(&[[0, 2, 0], [0, 2, 2], [end, 2, 2], [end, 2, 0]]),
    ];
    let fixed = vec![
        b.face(&[[0, 0, 0], [0, 0, 2], [0, 2, 2], [0, 2, 0]]),
        b.face(&[[end, 0, 0], [end, 2, 0], [end, 2, 2], [end, 0, 2]]),
    ];
    let right = fixed[1];
    let mut faces: Vec<u64> = families.concat();
    faces.extend(&stretch);
    faces.extend(&fixed);
    let solid = b.solid(&faces);
    let body = PeriodicBodyPattern {
        solid_id: solid,
        axis: [1.0f64.to_bits(), 0, 0],
        pitch: 4.0f64.to_bits(),
        sites: sites as usize,
        coupled_instance_patterns: Vec::new(),
        repeat_face_families: families
            .into_iter()
            .map(|face_ids| PeriodicFaceFamily {
                face_ids,
                phase: 0,
                span: 0,
                orthogonal_center: [0, 0],
                bounds: 1,
                edges: 4,
                max_residual: 0,
            })
            .collect(),
        repeat_faces: 4 * sites as usize,
        faces_per_site: 4,
        stretch_face_ids: stretch,
        fixed_face_ids: fixed,
        total_faces: 0,
        max_residual: 0,
    };
    (b.entities, body, right)
}

fn spots(entities: &Vec<EntityInstance>, by: i64) -> HashMap<u64, Spot> {
    let index = build_index(entities);
    let mut out = HashMap::new();
    for id in of_type(entities, "CARTESIAN_POINT") {
        let at = point_at(entities, &index, id);
        out.insert(
            id,
            Spot {
                x: (at[0] + by).to_string(),
                y: at[1].to_string(),
                z: at[2].to_string(),
            },
        );
    }
    out
}

fn place_number(at: Point) -> u64 {
    ((at[0] + 1000) * 1_000_000 + (at[1] + 100) * 1000 + at[2] + 100) as u64
}

fn places(entities: &Vec<EntityInstance>, by: i64) -> HashMap<u64, u64> {
    let index = build_index(entities);
    let mut out = HashMap::new();
    for id in of_type(entities, "VERTEX_POINT") {
        let at = vertex_at(entities, &index, id);
        out.insert(id, place_number([at[0] + by, at[1], at[2]]));
    }
    out
}

fn area(steps: &[(Point, Point)]) -> Point {
    let mut out = [0; 3];
    for (a, b) in steps {
        out[0] += a[1] * b[2] - a[2] * b[1];
        out[1] += a[2] * b[0] - a[0] * b[2];
        out[2] += a[0] * b[1] - a[1] * b[0];
    }
    out
}

fn dot(a: Point, b: Point) -> i64 {
    a[0] * b[0] + a[1] * b[1] + a[2] * b[2]
}

/// The corners of a face along its loop.
fn outline(entities: &Vec<EntityInstance>, index: &HashMap<u64, usize>, face: u64) -> Vec<(Point, Point)> {
    let mut out = Vec::new();
    for bound in ids_of(&params(entities, index, face)[1]) {
        let edge_loop = id_of(&params(entities, index, bound)[1]);
        for oe in ids_of(&params(entities, index, edge_loop)[1]) {
            let fields = params(entities, index, oe);
            let (a, b) = edge_vertices(id_of(&fields[3]), entities, index).unwrap();
            let a = vertex_at(entities, index, a);
            let b = vertex_at(entities, index, b);
            match &fields[4] {
                Parameter::Enumeration(way) if way == "T" => out.push((a, b)),
                _ => out.push((b, a)),
            }
        }
    }
    out
}

/// Everything that is measured of a notched bar that is to be resized.
fn measure(
    entities: &Vec<EntityInstance>,
    body: &PeriodicBodyPattern,
    right: u64,
    new_sites: usize,
) -> BodyEvidence {
    measure_along(entities, body, right, new_sites, 4)
}

/// Everything that is measured of a notched bar that is resized at the end with a face.
fn measure_along(
    entities: &Vec<EntityInstance>,
    body: &PeriodicBodyPattern,
    right: u64,
    new_sites: usize,
    step: i64,
) -> BodyEvidence {
    let index = build_index(entities);
    let total = step * (new_sites as i64 - body.sites as i64);
    let mut beyond = HashMap::new();
    for family in &body.repeat_face_families {
        for face in &family.face_ids {
            beyond.insert(*face, false);
        }
    }
    for face in &body.fixed_face_ids {
        beyond.insert(*face, *face == right);
    }
    let mut site_spots = Vec::new();
    let mut stepped = Vec::new();
    for site in body.sites..new_sites {
        site_spots.push(spots(entities, step * (site as i64 - (body.sites / 2) as i64)));
        stepped.push(places(entities, step * (site as i64 - body.sites as i64 + 1)));
    }
    let mut middles: Vec<(i64, u64)> = Vec::new();
    for edge in of_type(entities, "EDGE_CURVE") {
        let (a, b) = edge_vertices(edge, entities, &index).unwrap();
        let a = vertex_at(entities, &index, a);
        let b = vertex_at(entities, &index, b);
        middles.push((a[0] + b[0], edge));
    }
    let mut rows = HashMap::new();
    for (middle, edge) in middles {
        let (a, b) = edge_vertices(edge, entities, &index).unwrap();
        let a = vertex_at(entities, &index, a);
        let b = vertex_at(entities, &index, b);
        rows.insert(
            edge,
            RowMeasure {
                rank: (10_000 + step.signum() * middle) as u64,
                full: (a[0] - b[0]).abs() > 4 * (body.sites as i64 - 1),
                turned: step * a[0] > step * b[0],
            },
        );
    }
    let mut evidence = BodyEvidence {
        has_axis: true,
        beyond,
        cap_spots: spots(entities, total),
        site_spots,
        places: HashMap::new(),
        shifted: places(entities, total),
        stepped,
        rows,
        loops: HashMap::new(),
    };
    let copied = preview_copies(entities, body, new_sites, &evidence).unwrap();
    evidence.places = places(&copied, 0);
    let (staged, marks) = preview_edges(entities, body, new_sites, &evidence).unwrap();
    let after = build_index(&staged);
    for face in &body.stretch_face_ids {
        let before = area(&outline(entities, &index, *face));
        let edges = edges_for(&marks, *face);
        let loops = trace_cycles(&edges, &staged, &after).unwrap();
        let mut windings = Vec::new();
        for steps in &loops {
            let corners: Vec<(Point, Point)> = steps
                .iter()
                .map(|step: &Traversal| {
                    (
                        vertex_at(&staged, &after, step.start),
                        vertex_at(&staged, &after, step.end),
                    )
                })
                .collect();
            let sign = dot(area(&corners), before);
            windings.push(if sign > 0 { Winding::Along } else { Winding::Against });
        }
        evidence.loops.insert(
            *face,
            LoopMeasure {
                flat: false,
                holes_along: false,
                outer: 0,
                windings,
            },
        );
    }
    evidence
}

fn shell_faces(entities: &Vec<EntityInstance>, solid: u64) -> Vec<u64> {
    let index = build_index(entities);
    let shell = id_of(&params(entities, &index, solid)[1]);
    ids_of(&params(entities, &index, shell)[1])
}

/// The corners of all faces of a solid. Every edge must be walked once each way.
fn closed_outlines(entities: &Vec<EntityInstance>, solid: u64) -> BTreeSet<BTreeSet<Point>> {
    let index = build_index(entities);
    let mut walked: HashSet<(Point, Point)> = HashSet::new();
    let mut out = BTreeSet::new();
    for face in shell_faces(entities, solid) {
        let steps = outline(entities, &index, face);
        for (k, (a, b)) in steps.iter().enumerate() {
            assert_eq!(*b, steps[(k + 1) % steps.len()].0);
            assert!(walked.insert((*a, *b)), "{a:?} {b:?} is walked twice");
        }
        out.insert(steps.iter().map(|step| step.0).collect());
    }
    for (a, b) in &walked {
        assert!(walked.contains(&(*b, *a)), "{b:?} {a:?} is not walked");
    }
    out
}

#[test]
fn a_notched_bar_grows() {
    let (mut entities, body, right) = notched_bar(4);
    let (wanted, wanted_body, _) = notched_bar(6);
    let evidence = measure(&entities, &body, right, 6);
    let before = entities.len();
    let stats = expand_periodic_body_positive(&mut entities, &body, 6, &evidence).unwrap();
    assert_eq!(stats.old_sites, 4);
    assert_eq!(stats.new_sites, 6);
    assert_eq!(stats.canonical_site, 2);
    assert_eq!(stats.cloned_repeat_faces, 8);
    assert_eq!(stats.cloned_positive_fixed_faces, 1);
    assert_eq!(stats.rebuilt_stretch_faces, 4);
    assert_eq!(stats.new_stretch_edges, 6);
    assert_eq!(stats.added_entities, entities.len() - before);
    assert_eq!(shell_faces(&entities, body.solid_id).len(), 4 * 6 + 6);
    assert_eq!(
        closed_outlines(&entities, body.solid_id),
        closed_outlines(&wanted, wanted_body.solid_id)
    );
}

#[test]
fn a_notched_bar_shrinks() {
    let (mut entities, body, right) = notched_bar(6);
    let (wanted, wanted_body, _) = notched_bar(4);
    let evidence = measure(&entities, &body, right, 4);
    let stats = shrink_periodic_body_positive(&mut entities, &body, 4, &evidence).unwrap();
    assert_eq!(stats.canonical_site, 2);
    assert_eq!(stats.cloned_repeat_faces, 0);
    assert_eq!(stats.new_stretch_edges, 4);
    assert_eq!(
        closed_outlines(&entities, body.solid_id),
        closed_outlines(&wanted, wanted_body.solid_id)
    );
}

#[test]
fn bodies_that_cannot_be_resized_stay() {
    let (mut entities, mut body, right) = notched_bar(4);
    let evidence = measure(&entities, &body, right, 5);
    let before = entities.len();
    let mut grow = |body: &PeriodicBodyPattern, sites: usize, evidence: &BodyEvidence| {
        let out = expand_periodic_body_positive(&mut entities, body, sites, evidence);
        assert_eq!(entities.len(), before);
        out.unwrap_err()
    };
    assert_eq!(grow(&body, 4, &evidence), BodyError::NotLarger);
    body.pitch = 1.0e-7f64.to_bits();
    assert_eq!(grow(&body, 5, &evidence), BodyError::BadPitch);
    body.pitch = f64::INFINITY.to_bits();
    assert_eq!(grow(&body, 5, &evidence), BodyError::BadPitch);
    body.pitch = 4.0f64.to_bits();
    assert_eq!(grow(&body, 6, &evidence), BodyError::NotMeasured);
    let solid = body.solid_id;
    body.solid_id = 1;
    assert_eq!(grow(&body, 5, &evidence), BodyError::NoShell);
    body.solid_id = solid;
    let last = body.repeat_face_families[0].face_ids.pop().unwrap();
    assert_eq!(grow(&body, 5, &evidence), BodyError::UnevenFamilies);
    body.repeat_face_families[0].face_ids.push(last);
    let fixed = body.fixed_face_ids.pop().unwrap();
    assert_eq!(grow(&body, 5, &evidence), BodyError::NoCaps);
    body.fixed_face_ids.push(fixed);
    let mut nowhere = measure(&notched_bar(4).0, &body, right, 5);
    nowhere.has_axis = false;
    assert_eq!(grow(&body, 5, &nowhere), BodyError::ZeroAxis);
    nowhere.has_axis = true;
    nowhere.shifted = places(&notched_bar(4).0, 999);
    assert_eq!(grow(&body, 5, &nowhere), BodyError::NoVertex);

    let (mut entities, body, right) = notched_bar(6);
    let evidence = measure(&entities, &body, right, 4);
    let mut shrink = |sites: usize| {
        shrink_periodic_body_positive(&mut entities, &body, sites, &evidence).unwrap_err()
    };
    assert_eq!(shrink(6), BodyError::NotSmaller);
    assert_eq!(shrink(3), BodyError::TooFewSites);
}

#[test]
fn faces_give_their_edges_in_order() {
    let mut b = Builder::new();
    let (_, faces) = b.cuboid([0, 0, 0], [1, 1, 1]);
    let index = build_index(&b.entities);
    let edges = face_edges_ordered(faces[0], &b.entities, &index).unwrap();
    assert_eq!(edges.len(), 4);
    let loops = trace_cycles(&{ let mut e = edges.clone(); e.sort(); e }, &b.entities, &index).unwrap();
    assert_eq!(loops.len(), 1);
    assert_eq!(loops[0].len(), 4);
    assert_eq!(loops[0][3].end, loops[0][0].start);
    assert_eq!(
        trace_cycles(&edges[..3].to_vec(), &b.entities, &index).unwrap_err(),
        BodyError::OpenBoundary
    );
    assert_eq!(
        trace_cycles(&vec![faces[0]], &b.entities, &index).unwrap_err(),
        BodyError::BadTopology
    );
}

/// Two boxes beside each other that look the same.
fn two_boxes(gap: i64) -> (Builder, [u64; 2], Vec<u64>) {
    let mut b = Builder::new();
    let (first, mut faces) = b.cuboid([0, 0, 0], [1, 1, 1]);
    let (second, more) = b.cuboid([1 + gap, 0, 0], [2 + gap, 1, 1]);
    faces.extend(more);
    let look = b.push("PRESENTATION_STYLE_ASSIGNMENT", vec![Parameter::List(Vec::new())]);
    let context = b.push("REPRESENTATION_CONTEXT", vec![label(), label()]);
    let mut items = Vec::new();
    for solid in [first, second] {
        items.push(b.push("STYLED_ITEM", vec![label(), refs(&[look]), r(solid)]));
    }
    b.push(
        "ADVANCED_BREP_SHAPE_REPRESENTATION",
        vec![label(), refs(&[first, second]), r(context)],
    );
    b.push(
        "MECHANICAL_DESIGN_GEOMETRIC_PRESENTATION_REPRESENTATION",
        vec![label(), refs(&items), r(context)],
    );
    (b, [first, second], faces)
}

fn number_of<T: std::hash::Hash + Eq>(seen: &mut HashMap<T, u64>, key: T) -> u64 {
    let next = seen.len() as u64;
    *seen.entry(key).or_insert(next)
}

fn weld_evidence(entities: &Vec<EntityInstance>, faces: &Vec<u64>) -> WeldEvidence {
    let index = build_index(entities);
    let mut seen_faces = HashMap::new();
    let mut seen_edges = HashMap::new();
    let mut seen_points = HashMap::new();
    let mut face_class = HashMap::new();
    let mut count: HashMap<u64, usize> = HashMap::new();
    for face in faces {
        let corners: BTreeSet<Point> =
            outline(entities, &index, *face).iter().map(|step| step.0).collect();
        let class = number_of(&mut seen_faces, corners);
        face_class.insert(*face, class);
        *count.entry(class).or_insert(0) += 1;
    }
    let mut edge_class = HashMap::new();
    for edge in of_type(entities, "EDGE_CURVE") {
        let (a, b) = edge_vertices(edge, entities, &index).unwrap();
        let pair = BTreeSet::from([vertex_at(entities, &index, a), vertex_at(entities, &index, b)]);
        edge_class.insert(edge, number_of(&mut seen_edges, pair));
    }
    let mut point_class = HashMap::new();
    for vertex in of_type(entities, "VERTEX_POINT") {
        let at = vertex_at(entities, &index, vertex);
        point_class.insert(vertex, number_of(&mut seen_points, at));
    }
    let opposed = count.into_iter().filter(|(_, n)| *n == 2).map(|(class, _)| class).collect();
    WeldEvidence {
        face_class,
        opposed,
        edge_class,
        point_class,
    }
}

#[test]
fn touching_boxes_become_one() {
    let (b, _, faces) = two_boxes(0);
    let mut entities = b.entities;
    let evidence = weld_evidence(&entities, &faces);
    let stats = recover_partitioned_bodies(&mut entities, &evidence);
    assert_eq!(stats.components, 1);
    assert_eq!(stats.interfaces_removed, 1);
    assert_eq!(of_type(&entities, "MANIFOLD_SOLID_BREP").len(), 1);
    let solid = of_type(&entities, "MANIFOLD_SOLID_BREP")[0];
    assert_eq!(shell_faces(&entities, solid).len(), 10);
    closed_outlines(&entities, solid);
}

#[test]
fn boxes_that_do_not_touch_stay_apart() {
    let (b, _, faces) = two_boxes(3);
    let mut entities = b.entities;
    let before = entities.len();
    let evidence = weld_evidence(&entities, &faces);
    let stats = recover_partitioned_bodies(&mut entities, &evidence);
    assert_eq!(stats.components, 0);
    assert_eq!(entities.len(), before);
}

#[test]
fn solids_of_other_shapes_are_no_instances() {
    let (b, [first, second], _) = two_boxes(3);
    let mut entities = b.entities;
    let before = entities.len();
    let evidence = InstanceEvidence {
        shape_class: HashMap::from([(first, 1), (second, 2)]),
        turns: Vec::new(),
    };
    let stats = instance_z90_solids(&mut entities, &evidence);
    assert_eq!(stats.groups, 0);
    assert_eq!(stats.solids_replaced, 0);
    assert_eq!(entities.len(), before);
}

type Corners = BTreeSet<Point>;

/// The corners of the faces of a notched bar: its families, the faces along it, and its ends.
fn bar_corners(from: i64, sites: i64) -> (Vec<Vec<Corners>>, Vec<Corners>, Vec<Corners>) {
    let end = from + 4 * sites;
    let mut families: Vec<Vec<Corners>> = vec![Vec::new(); 4];
    let mut top: Corners = [[from, 2, 2], [from, 0, 2], [end, 0, 2], [end, 2, 2]].into();
    let mut front: Corners = [[from, 0, 0], [end, 0, 0], [end, 0, 2], [from, 0, 2]].into();
    for site in 0..sites {
        let (x0, x1) = (from + 4 * site + 1, from + 4 * site + 3);
        families[0].push([[x0, 0, 1], [x0, 1, 1], [x0, 1, 2], [x0, 0, 2]].into());
        families[1].push([[x1, 0, 1], [x1, 0, 2], [x1, 1, 2], [x1, 1, 1]].into());
        families[2].push([[x0, 1, 1], [x1, 1, 1], [x1, 1, 2], [x0, 1, 2]].into());
        families[3].push([[x0, 0, 1], [x1, 0, 1], [x1, 1, 1], [x0, 1, 1]].into());
        top.extend([[x0, 0, 2], [x0, 1, 2], [x1, 1, 2], [x1, 0, 2]]);
        front.extend([[x0, 0, 2], [x0, 0, 1], [x1, 0, 1], [x1, 0, 2]]);
    }
    let stretch = vec![
        top,
        front,
        [[from, 0, 0], [from, 2, 0], [end, 2, 0], [end, 0, 0]].into(),
        [[from, 2, 0], [from, 2, 2], [end, 2, 2], [end, 2, 0]].into(),
    ];
    let fixed = vec![
        [[from, 0, 0], [from, 0, 2], [from, 2, 2], [from, 2, 0]].into(),
        [[end, 0, 0], [end, 2, 0], [end, 2, 2], [end, 0, 2]].into(),
    ];
    (families, stretch, fixed)
}

/// Adds instances four units apart in a row.
fn add_row(entities: &mut Vec<EntityInstance>, count: i64) {
    let mut b = Builder::new();
    b.next = entities.len() as u64 + 1000;
    let context = b.push("REPRESENTATION_CONTEXT", vec![label(), label()]);
    let axis = |x: i64, z: i64| {
        Parameter::List([x, 0, z].iter().map(|v| Parameter::Real(v.to_string())).collect())
    };
    let z = b.push("DIRECTION", vec![label(), axis(0, 1)]);
    let x = b.push("DIRECTION", vec![label(), axis(1, 0)]);
    let zero = b.point([0, 0, 0]);
    let origin = b.push("AXIS2_PLACEMENT_3D", vec![label(), r(zero), r(z), r(x)]);
    let part = b.push("SHAPE_REPRESENTATION", vec![label(), refs(&[]), r(context)]);
    let map = b.push("REPRESENTATION_MAP", vec![r(origin), r(part)]);
    let look = b.push("PRESENTATION_STYLE_ASSIGNMENT", vec![Parameter::List(Vec::new())]);
    let mut items = Vec::new();
    let mut styles = Vec::new();
    for k in 0..count {
        let point = b.point([4 * k, 0, 0]);
        let target = b.push("AXIS2_PLACEMENT_3D", vec![label(), r(point), r(z), r(x)]);
        let item = b.push("MAPPED_ITEM", vec![label(), r(map), r(target)]);
        styles.push(b.push("STYLED_ITEM", vec![label(), refs(&[look]), r(item)]));
        items.push(item);
    }
    let solids = of_type(entities, "MANIFOLD_SOLID_BREP");
    items.extend(solids);
    b.push("SHAPE_REPRESENTATION", vec![label(), refs(&items), r(context)]);
    b.push(
        "MECHANICAL_DESIGN_GEOMETRIC_PRESENTATION_REPRESENTATION",
        vec![label(), refs(&styles), r(context)],
    );
    entities.extend(b.entities);
}

fn item_places(entities: &Vec<EntityInstance>) -> Vec<(i64, u64)> {
    let index = build_index(entities);
    let mut out: Vec<(i64, u64)> = of_type(entities, "MAPPED_ITEM")
        .into_iter()
        .map(|item| {
            let target = id_of(&params(entities, &index, item)[2]);
            (point_at(entities, &index, id_of(&params(entities, &index, target)[1]))[0], item)
        })
        .collect();
    out.sort();
    out
}

/// What there is to find in a notched bar that starts somewhere, with a row of instances.
fn bar_semantics(entities: &Vec<EntityInstance>, from: i64, sites: i64) -> Semantics {
    let index = build_index(entities);
    let solid = of_type(entities, "MANIFOLD_SOLID_BREP")[0];
    let mut known: HashMap<Corners, u64> = HashMap::new();
    for face in shell_faces(entities, solid) {
        let corners = outline(entities, &index, face).iter().map(|step| step.0).collect();
        known.insert(corners, face);
    }
    let (families, stretch, fixed) = bar_corners(from, sites);
    let ids = |list: &Vec<Corners>| list.iter().map(|face| known[face]).collect::<Vec<u64>>();
    let body = PeriodicBodyPattern {
        solid_id: solid,
        axis: [1.0f64.to_bits(), 0, 0],
        pitch: 4.0f64.to_bits(),
        sites: sites as usize,
        coupled_instance_patterns: vec![0],
        repeat_face_families: families
            .iter()
            .map(|faces| PeriodicFaceFamily {
                face_ids: ids(faces),
                phase: 0,
                span: 0,
                orthogonal_center: [0, 0],
                bounds: 1,
                edges: 4,
                max_residual: 0,
            })
            .collect(),
        repeat_faces: 4 * sites as usize,
        faces_per_site: 4,
        stretch_face_ids: ids(&stretch),
        fixed_face_ids: ids(&fixed),
        total_faces: 0,
        max_residual: 0,
    };
    let items = item_places(entities);
    let map = of_type(entities, "REPRESENTATION_MAP")[0];
    let parent = *of_type(entities, "SHAPE_REPRESENTATION").last().unwrap();
    let row = InstancePattern {
        parent_representation: parent,
        representation_map: map,
        item_ids: items.iter().map(|item| item.1).collect(),
        style_signature: Vec::new(),
        dimension: 1,
        origin: [(items[0].0 as f64).to_bits(), 0, 0],
        basis: vec![[1.0f64.to_bits(), 0, 0]],
        pitch: vec![4.0f64.to_bits()],
        occupancy: (0..sites).map(|k| [k, 0]).collect(),
        grid_shape: vec![sites as usize],
        fill_ratio: 1.0f64.to_bits(),
        max_residual: 0,
    };
    let parameter = RecoveredCountParameter {
        sites: sites as usize,
        pitch: 4.0f64.to_bits(),
        axis: [1.0f64.to_bits(), 0, 0],
        parent_representation: parent,
        instance_patterns: vec![0],
        periodic_bodies: vec![0],
        instances_per_site: 1,
        total_instances: sites as usize,
        body_grammar_proven: true,
        max_residual: 0,
    };
    Semantics {
        patterns: vec![row],
        bodies: vec![body],
        parameters: vec![parameter],
    }
}

fn bar_file(sites: i64) -> Vec<u8> {
    let (mut entities, _, _) = notched_bar(sites);
    add_row(&mut entities, sites);
    let exchange = Exchange {
        header: Vec::new(),
        anchor: 0,
        reference: 0,
        data: vec![DataSection {
            meta: Vec::new(),
            entities,
        }],
        signature: 0,
    };
    let text = write_exchange(&exchange).unwrap();
    text.replace(
        "HEADER;\n",
        "HEADER;\nFILE_DESCRIPTION((''),'2;1');\nFILE_NAME('','',(''),(''),'','','');\nFILE_SCHEMA(('S'));\n",
    )
    .into_bytes()
}

fn section(bytes: &[u8]) -> Vec<EntityInstance> {
    read_exchange(bytes).unwrap().0.data.remove(0).entities
}

/// Runs a change of a number of sites of a bar. The bar starts somewhere before and after it.
fn run(edit: CountEdit, from: i64, to: i64) -> CountEditOutput {
    let mut edit = edit;
    loop {
        edit = match next_need(&edit) {
            CountNeed::Done => break,
            CountNeed::Body(k) => {
                let directed = &edit.bodies[k].directed;
                let forward = edit.anchor == CountAnchor::Start;
                let far = directed.fixed_face_ids[if forward { 1 } else { 0 }];
                let evidence = measure_along(
                    &edit.exchange.data[0].entities,
                    directed,
                    far,
                    edit.new_sites,
                    if forward { 4 } else { -4 },
                );
                resize_next_body(edit, &evidence).unwrap()
            }
            CountNeed::Row(_) => {
                let steps = HalfSteps {
                    first: -60,
                    places: (-60..=120)
                        .map(|half: i64| Site {
                            x: (from + 2 * half).to_string(),
                            y: "0".to_string(),
                            z: "0".to_string(),
                        })
                        .collect(),
                };
                resize_next_row(edit, true, &steps).unwrap()
            }
        };
    }
    let settled = settle_edit(edit);
    let sites = settled.new_sites as i64;
    let found = bar_semantics(&settled.exchange.data[0].entities, to, sites);
    finish_count_edit(settled, found).unwrap()
}

/// Whether a file holds a bar of some sites with its row, and nothing is open.
fn holds_bar(bytes: &[u8], from: i64, sites: i64) {
    let entities = section(bytes);
    let solid = of_type(&entities, "MANIFOLD_SOLID_BREP")[0];
    let (families, stretch, fixed) = bar_corners(from, sites);
    let mut wanted: BTreeSet<Corners> = families.into_iter().flatten().collect();
    wanted.extend(stretch);
    wanted.extend(fixed);
    assert_eq!(closed_outlines(&entities, solid), wanted);
    let places: Vec<i64> = item_places(&entities).iter().map(|item| item.0).collect();
    assert_eq!(places, (0..sites).map(|k| from + 4 * k).collect::<Vec<i64>>());
}

#[test]
fn a_number_of_sites_changes_at_one_end() {
    let file = bar_file(6);
    let found = bar_semantics(&section(&file), 0, 6);
    for (sites, anchor, to) in [
        (8, CountAnchor::Start, 0),
        (5, CountAnchor::Start, 0),
        (8, CountAnchor::End, -8),
        (5, CountAnchor::End, 4),
    ] {
        let edit =
            resize_count_parameter_bytes_one_side(&file, &found, 0, sites, anchor).unwrap();
        assert_eq!(edit.bodies.len(), 1);
        assert_eq!(edit.bodies[0].grows, sites == 8);
        assert_eq!(next_need(&edit), CountNeed::Body(0));
        let edited = run(edit, 0, to);
        assert_eq!(edited.resize.old_sites, 6);
        assert_eq!(edited.resize.new_sites, sites);
        assert_eq!(edited.resize.anchor, anchor);
        assert_eq!(edited.resize.body_resizes.len(), 1);
        assert_eq!(edited.resize.pattern_resizes.len(), 1);
        holds_bar(&edited.bytes, to, sites as i64);
    }
}

#[test]
fn a_number_of_sites_changes_at_both_ends() {
    let file = bar_file(6);
    let found = bar_semantics(&section(&file), 0, 6);
    let plan = resize_count_parameter_bytes_with_anchor(&file, &found, 0, 8, CountAnchor::Center);
    let mid = match plan.unwrap() {
        CountPlan::BothSides { mid_sites, new_sites } => {
            assert_eq!(new_sites, 8);
            mid_sites
        }
        CountPlan::OneSide(_) => panic!("one side only"),
    };
    assert_eq!(mid, 7);
    let start =
        resize_count_parameter_bytes_one_side(&file, &found, 0, mid, CountAnchor::Start).unwrap();
    let first = run(start, 0, 0);
    let again = bar_semantics(&section(&first.bytes), 0, 7);
    let rest = resume_center(&first, &found.parameters[0], mid, 8, &again).unwrap();
    assert_eq!(rest.anchor, CountAnchor::End);
    let second = run(rest, 0, -4);
    holds_bar(&second.bytes, -4, 8);
    let edited = combine_count_edits(first.resize, second, &found.parameters[0], 8);
    assert_eq!(edited.resize.old_sites, 6);
    assert_eq!(edited.resize.new_sites, 8);
    assert_eq!(edited.resize.body_resizes.len(), 2);
}

#[test]
fn numbers_of_sites_that_cannot_change_stay() {
    let file = bar_file(6);
    let found = bar_semantics(&section(&file), 0, 6);
    let one_side = |index: usize, sites: usize| {
        resize_count_parameter_bytes_one_side(&file, &found, index, sites, CountAnchor::Start)
            .unwrap_err()
    };
    assert_eq!(one_side(1, 8), EditError::NotFound);
    assert_eq!(one_side(0, 6), EditError::SameSites);
    assert_eq!(one_side(0, 3), EditError::TooFewSites);
    let edit =
        resize_count_parameter_bytes_one_side(&file, &found, 0, 8, CountAnchor::Start).unwrap();
    let first = run(edit, 0, 0);
    let again = bar_semantics(&section(&first.bytes), 0, 8);
    assert_eq!(
        resume_center(&first, &found.parameters[0], 7, 9, &again).unwrap_err(),
        EditError::NotRediscovered
    );
}
