use std::collections::HashMap;
use step_redox::ast::{EntityInstance, Name, Parameter, Record};
use step_redox::body_detection::find_solids;
use step_redox::congruence::{
    canonical_z90_points, compare_solids, component_signature, normalized_points, number_texts,
    settle_turns, unique_relative_quarter, Pose, Shift, TurnPair,
};
use step_redox::graph::build_index;
use step_redox::signatures::{turn, Observer, RealTicks};
use step_redox::texts::is_less;

type Point = [i64; 3];

fn r(id: u64) -> Parameter {
    Parameter::Ref(Name::Entity(id))
}

fn refs(ids: &[u64]) -> Parameter {
    Parameter::List(ids.iter().map(|id| r(*id)).collect())
}

fn label() -> Parameter {
    Parameter::String(String::new())
}

fn word(text: &str) -> Parameter {
    Parameter::Enumeration(text.to_string())
}

/// Builds solids, and keeps where their points and directions are.
struct Builder {
    entities: Vec<EntityInstance>,
    places: HashMap<u64, Point>,
    directions: HashMap<u64, Point>,
    vertices: HashMap<Point, u64>,
    edges: HashMap<(u64, u64), u64>,
}

impl Builder {
    fn new() -> Builder {
        Builder {
            entities: Vec::new(),
            places: HashMap::new(),
            directions: HashMap::new(),
            vertices: HashMap::new(),
            edges: HashMap::new(),
        }
    }

    fn push(&mut self, name: &str, params: Vec<Parameter>) -> u64 {
        let id = self.entities.len() as u64 + 1;
        self.entities.push(EntityInstance::Simple {
            id,
            record: Record {
                name: name.to_string(),
                parameter: Parameter::List(params),
            },
        });
        id
    }

    fn numbers(at: Point) -> Parameter {
        Parameter::List(at.iter().map(|v| Parameter::Real(v.to_string())).collect())
    }

    fn point(&mut self, at: Point) -> u64 {
        let id = self.push("CARTESIAN_POINT", vec![label(), Builder::numbers(at)]);
        self.places.insert(id, at);
        id
    }

    fn direction(&mut self, along: Point) -> u64 {
        let id = self.push("DIRECTION", vec![label(), Builder::numbers(along)]);
        self.directions.insert(id, along);
        id
    }

    fn vertex(&mut self, at: Point) -> u64 {
        if let Some(id) = self.vertices.get(&at) {
            return *id;
        }
        let point = self.point(at);
        let id = self.push("VERTEX_POINT", vec![label(), r(point)]);
        self.vertices.insert(at, id);
        id
    }

    fn oriented(&mut self, a: Point, b: Point) -> u64 {
        let (start, end) = (self.vertex(a), self.vertex(b));
        let (edge, way) = if let Some(edge) = self.edges.get(&(end, start)) {
            (*edge, "F")
        } else {
            let point = self.point(a);
            let along = self.direction([b[0] - a[0], b[1] - a[1], b[2] - a[2]]);
            let line = self.push("LINE", vec![label(), r(point), r(along)]);
            let edge = self.push(
                "EDGE_CURVE",
                vec![label(), r(start), r(end), r(line), word("T")],
            );
            self.edges.insert((start, end), edge);
            (edge, "T")
        };
        self.push(
            "ORIENTED_EDGE",
            vec![label(), Parameter::Omitted, Parameter::Omitted, r(edge), word(way)],
        )
    }

    fn face(&mut self, corners: &[Point]) -> u64 {
        let uses: Vec<u64> = (0..corners.len())
            .map(|k| self.oriented(corners[k], corners[(k + 1) % corners.len()]))
            .collect();
        let edge_loop = self.push("EDGE_LOOP", vec![label(), refs(&uses)]);
        let bound = self.push("FACE_OUTER_BOUND", vec![label(), r(edge_loop), word("T")]);
        let point = self.point(corners[0]);
        let plane = self.push("PLANE", vec![label(), r(point), Parameter::Integer(7)]);
        self.push("ADVANCED_FACE", vec![label(), refs(&[bound]), r(plane), word("T")])
    }

    /// A prism on a triangle; its faces start at different corners.
    fn prism(&mut self, base: [[i64; 2]; 3], height: i64, start: usize) -> (u64, Vec<u64>) {
        self.vertices.clear();
        self.edges.clear();
        let low = |k: usize| [base[k % 3][0], base[k % 3][1], 0];
        let high = |k: usize| [base[k % 3][0], base[k % 3][1], height];
        let mut faces = vec![
            self.face(&[low(start), low(start + 2), low(start + 1)]),
            self.face(&[high(start), high(start + 1), high(start + 2)]),
        ];
        for k in 0..3 {
            faces.push(self.face(&[low(k), low(k + 1), high(k + 1), high(k)]));
        }
        faces.rotate_left(start);
        let shell = self.push("CLOSED_SHELL", vec![label(), refs(&faces)]);
        (self.push("MANIFOLD_SOLID_BREP", vec![label(), r(shell)]), faces)
    }

    fn ticks(&self, center: Point) -> HashMap<u64, [i64; 3]> {
        let mut out = self.directions.clone();
        for (id, at) in &self.places {
            out.insert(*id, [at[0] - center[0], at[1] - center[1], at[2] - center[2]]);
        }
        out
    }
}

const BASE: [[i64; 2]; 3] = [[0, 0], [6, 0], [0, 3]];

fn turned_base(by: [i64; 2]) -> [[i64; 2]; 3] {
    BASE.map(|at| [by[0] - at[1], by[1] + at[0]])
}

/// A prism, the same one turned and moved, its mirror image, and a taller one.
fn prisms() -> (Builder, Vec<(u64, Vec<u64>)>, Vec<HashMap<u64, [i64; 3]>>) {
    let mut b = Builder::new();
    let solids = vec![
        b.prism(BASE, 2, 0),
        b.prism(turned_base([30, 10]), 2, 0),
        b.prism([[0, 0], [3, 0], [0, 6]], 2, 0),
        b.prism(BASE, 4, 0),
    ];
    let ticks = vec![
        b.ticks([2, 1, 1]),
        b.ticks([29, 12, 1]),
        b.ticks([1, 2, 1]),
        b.ticks([2, 1, 2]),
    ];
    (b, solids, ticks)
}

#[test]
fn solids_are_compared_up_to_quarter_turns() {
    let (b, solids, ticks) = prisms();
    let ids: Vec<u64> = solids.iter().map(|solid| solid.0).collect();
    assert_eq!(find_solids(&b.entities), ids);
    let reals = RealTicks::new();
    let found = compare_solids(&b.entities, &ticks, &reals).unwrap();
    assert_eq!(
        found.classes,
        HashMap::from([(ids[0], 0), (ids[1], 0), (ids[2], 2), (ids[3], 3)])
    );
    assert_eq!(
        found.pairs,
        vec![
            TurnPair { source: ids[0], target: ids[1], quarter: 1 },
            TurnPair { source: ids[1], target: ids[0], quarter: 3 },
        ]
    );
    assert!(compare_solids(&b.entities, &ticks[1..].to_vec(), &reals).is_none());

    let shift = |x: &str| Shift {
        x: x.to_string(),
        y: "2".to_string(),
        z: "0".to_string(),
    };
    let evidence = settle_turns(found, &vec![shift("30"), shift("-10")]).unwrap();
    assert_eq!(evidence.shape_class[&ids[1]], 0);
    assert_eq!(evidence.turns.len(), 2);
    assert_eq!(evidence.turns[1].source, ids[1]);
    assert_eq!(evidence.turns[1].place.quarter, 3);
    assert_eq!(evidence.turns[1].place.x, "-10");
    let again = compare_solids(&b.entities, &ticks, &reals).unwrap();
    assert!(settle_turns(again, &vec![shift("30")]).is_none());
}

#[test]
fn solids_that_were_not_measured_have_no_shape() {
    let (b, solids, mut ticks) = prisms();
    ticks[1].clear();
    let found = compare_solids(&b.entities, &ticks, &RealTicks::new()).unwrap();
    assert!(!found.classes.contains_key(&solids[1].0));
    assert_eq!(found.classes.len(), 3);
    assert!(found.pairs.is_empty());
}

#[test]
fn groups_of_faces_are_compared_up_to_quarter_turns() {
    let (b, solids, ticks) = prisms();
    let index = build_index(&b.entities);
    let reals = RealTicks::new();
    let seen: Vec<(String, u8)> = (0..4)
        .map(|k| {
            let observer = Observer {
                entities: &b.entities,
                index: &index,
                ticks: &ticks[k],
                reals: &reals,
                quarter: 0,
            };
            component_signature(&observer, &solids[k].1).unwrap()
        })
        .collect();
    assert_eq!((seen[0].1 + 4 - seen[1].1) % 4, 1);
    let texts: Vec<String> = seen.into_iter().map(|found| found.0).collect();
    assert!(texts[0].starts_with("F5[FACE("));
    assert_eq!(number_texts(&texts), vec![0, 0, 2, 3]);
}

#[test]
fn where_loops_and_shells_start_does_not_matter() {
    let mut texts = Vec::new();
    for start in 0..3 {
        let mut b = Builder::new();
        let mut ordered = Vec::new();
        let (solid, faces) = b.prism(BASE, 2, 0);
        ordered.extend(&faces[start..]);
        ordered.extend(&faces[..start]);
        let index = build_index(&b.entities);
        let ticks = b.ticks([0, 0, 0]);
        let reals = RealTicks::new();
        let observer = Observer {
            entities: &b.entities,
            index: &index,
            ticks: &ticks,
            reals: &reals,
            quarter: 0,
        };
        assert!(observer.solid_signature(solid).unwrap().starts_with("SHELL[FACE("));
        texts.push(observer.faces_signature(&ordered).unwrap());
    }
    assert_eq!(number_texts(&texts), vec![0, 0, 0]);
}

#[test]
fn a_face_is_seen_in_full() {
    let mut b = Builder::new();
    let origin = b.point([0, 0, 0]);
    let plane = b.push("PLANE", vec![label(), r(origin)]);
    let (start, end) = (b.vertex([1, 2, 3]), b.vertex([4, 5, 6]));
    let along = b.direction([1, 0, 0]);
    let curve = b.push(
        "LINE",
        vec![
            Parameter::String("x\"y".to_string()),
            Parameter::Real("0.5".to_string()),
            Parameter::Integer(-2),
            r(along),
            Parameter::Typed {
                keyword: "LENGTH".to_string(),
                parameter: Box::new(Parameter::NotProvided),
            },
        ],
    );
    let edge = b.push("EDGE_CURVE", vec![label(), r(start), r(end), r(curve), word("T")]);
    let uses = b.push(
        "ORIENTED_EDGE",
        vec![label(), Parameter::Omitted, Parameter::Omitted, r(edge), word("F")],
    );
    let edge_loop = b.push("EDGE_LOOP", vec![label(), refs(&[uses])]);
    let bound = b.push("FACE_BOUND", vec![label(), r(edge_loop), word("T")]);
    let face = b.push("ADVANCED_FACE", vec![label(), refs(&[bound]), r(plane), word("F")]);
    let index = build_index(&b.entities);
    let ticks = b.ticks([0, 0, 0]);
    let mut reals = RealTicks::new();
    let observer = Observer {
        entities: &b.entities,
        index: &index,
        ticks: &ticks,
        reals: &reals,
        quarter: 1,
    };
    assert!(observer.face_signature(face).is_none());
    reals.set("0.5".to_string(), 500_000_000);
    let observer = Observer {
        entities: &b.entities,
        index: &index,
        ticks: &ticks,
        reals: &reals,
        quarter: 1,
    };
    let wanted = "FACE(.F.;PLANE(S\"\",POINT(0,0,0));FACE_BOUND(.T.;LOOP[OE(.F.;.T.;\
        P(-5,4,6)->P(-2,1,3);LINE(S\"x\\\"y\",R500000000,I-2,DIR(0,1,0),LENGTH($)))]))";
    assert_eq!(observer.face_signature(face).unwrap(), wanted);
    assert_eq!(
        observer.faces_signature(&vec![face]).unwrap(),
        format!("F1[{wanted}]")
    );
    assert!(observer.face_signature(plane).is_none());
    assert!(observer.solid_signature(face).is_none());
}

#[test]
fn surfaces_made_of_themselves_are_not_seen() {
    let mut b = Builder::new();
    let (_, faces) = b.prism(BASE, 2, 0);
    let mut entities = b.entities;
    let index = build_index(&entities);
    let plane = match &entities[index[&faces[0]]] {
        EntityInstance::Simple { record, .. } => match &record.parameter {
            Parameter::List(items) => match &items[2] {
                Parameter::Ref(Name::Entity(id)) => *id,
                _ => unreachable!(),
            },
            _ => unreachable!(),
        },
        _ => unreachable!(),
    };
    entities[index[&plane]] = EntityInstance::Simple {
        id: plane,
        record: Record {
            name: "PLANE".to_string(),
            parameter: Parameter::List(vec![r(plane)]),
        },
    };
    let ticks = HashMap::new();
    let reals = RealTicks::new();
    let observer = Observer {
        entities: &entities,
        index: &index,
        ticks: &ticks,
        reals: &reals,
        quarter: 0,
    };
    assert!(observer.face_signature(faces[0]).is_none());
}

#[test]
fn only_one_turn_may_fit() {
    let pose = |x: i64, text: &str| Pose {
        points: vec![(x, 0, 0)],
        text: text.to_string(),
    };
    let source = vec![pose(0, "a"), pose(1, "a"), pose(1, "b"), pose(0, "a")];
    assert_eq!(unique_relative_quarter(&source, &pose(1, "b")), Some(2));
    assert_eq!(unique_relative_quarter(&source, &pose(1, "a")), Some(1));
    assert_eq!(unique_relative_quarter(&source, &pose(0, "a")), None);
    assert_eq!(unique_relative_quarter(&source, &pose(0, "b")), None);
}

#[test]
fn places_turn_by_quarters() {
    let at = [1, 2, 3];
    assert_eq!(turn(&at, 0), (1, 2, 3));
    assert_eq!(turn(&at, 1), (-2, 1, 3));
    assert_eq!(turn(&at, 2), (-1, -2, 3));
    assert_eq!(turn(&at, 3), (2, -1, 3));
    assert_eq!(turn(&at, 5), (-2, 1, 3));
    assert_eq!(turn(&[i64::MAX, i64::MIN, 0], 2), (i64::MIN, i64::MAX, 0));
    assert_eq!(
        normalized_points(&vec![[2, 0, 0], [0, 1, 0], [0, 0, 5]], 1),
        vec![(-1, 0, 0), (0, 0, 5), (0, 2, 0)]
    );
}

#[test]
fn texts_have_an_order() {
    assert!(is_less("", "a"));
    assert!(is_less("ab", "b"));
    assert!(is_less("a", "ab"));
    assert!(!is_less("ab", "ab"));
    assert!(is_less("z", "\u{e9}"));
}

fn centroid(points: &[[f64; 3]]) -> [f64; 3] {
    let n = points.len() as f64;
    [0, 1, 2].map(|axis| points.iter().map(|p| p[axis]).sum::<f64>() / n)
}

fn ticks_from(points: &[[f64; 3]], center: [f64; 3]) -> Vec<[i64; 3]> {
    points
        .iter()
        .map(|p| [0, 1, 2].map(|axis| ((p[axis] - center[axis]) * 1.0e9).round() as i64))
        .collect()
}

#[test]
fn z90_signature_ignores_quarter_turn_and_translation() {
    let a = vec![
        [0.0, 0.0, 0.0],
        [2.0, 0.0, 0.0],
        [0.0, 1.0, 0.0],
        [2.0, 1.0, 0.0],
        [0.0, 0.0, 3.0],
    ];
    let b: Vec<[f64; 3]> = a
        .iter()
        .map(|p| [10.0 - p[1], -4.0 + p[0], 2.0 + p[2]])
        .collect();
    let (ka, _) = canonical_z90_points(&ticks_from(&a, centroid(&a)));
    let (kb, _) = canonical_z90_points(&ticks_from(&b, centroid(&b)));
    assert_eq!(ka, kb);
}

#[test]
fn z90_signature_rejects_shape_change() {
    let a = vec![[0.0, 0.0, 0.0], [2.0, 0.0, 0.0], [0.0, 1.0, 0.0]];
    let b = vec![[0.0, 0.0, 0.0], [2.1, 0.0, 0.0], [0.0, 1.0, 0.0]];
    let (ka, _) = canonical_z90_points(&ticks_from(&a, centroid(&a)));
    let (kb, _) = canonical_z90_points(&ticks_from(&b, centroid(&b)));
    assert_ne!(ka, kb);
}
