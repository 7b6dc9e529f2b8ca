use std::collections::HashMap;
use step_redox::ast::EntityInstance;
use step_redox::cad_ir::Scalar;
use step_redox::cad_recovery::RecoveredSolidExtrusion;
use step_redox::chain_detection::{
    build_pattern, choose_partition, detect_periodic_chains, find_chain, ChainEvidence, ChainFrame,
};
use step_redox::chain_partition::{FacePlace, Side};
use step_redox::chain_pattern::{FaceEdges, FaceRow, LatticeCandidate};
use step_redox::chain_reading::{chain_windows, face_rows, find_candidate, read_faces, FaceForm};
use step_redox::chain_windows::Window;
use step_redox::formed_sheet::{SheetCylinderPair, SheetMeasure};
use step_redox::graph::build_index;
use step_redox::periodic_resize::PeriodicChainResizeStats;
use step_redox::read::{read_exchange, StepError};
use step_redox::reports::{
    detect_formed_sheet_evidence_bytes, detect_periodic_chains_bytes,
    detect_solid_extrusions_bytes, ReportError, SectionEvidence,
};
use step_redox::resize::{
    combine_chain_edits, expand_periodic_chain_bytes, finish_chain_edit, merge_chain_edit,
    resize_periodic_chain_bytes_with_anchor, resume_chain_center, settle_chain_edit, ChainPlan,
    CountAnchor, EditError,
};

const FILE: &[u8] = b"ISO-10303-21;\nHEADER;\nFILE_DESCRIPTION((''),'2;1');\nFILE_NAME('','',(''),(''),'','','');\nFILE_SCHEMA(('S'));\nENDSEC;\nDATA;\n#1=CARTESIAN_POINT('',(0.,0.,0.));\nENDSEC;\nEND-ISO-10303-21;\n";

/// The second axis.
const SECOND: [u64; 3] = [0, 0x3FF0_0000_0000_0000, 0];

fn row(axis: usize, ticks: &[i64]) -> FaceRow {
    FaceRow {
        axis,
        ticks: ticks.to_vec(),
    }
}

#[test]
fn candidates_need_faces_and_votes() {
    let rows = vec![
        row(1, &[0, 5, 10, 15]),
        row(1, &[1, 6, 11, 16]),
        row(1, &[2, 7, 12, 17]),
        row(1, &[3, 8, 13, 18]),
        row(0, &[0, 1, 2, 3, 4]),
    ];
    let found = find_candidate(16, 16, &rows).unwrap();
    assert_eq!(
        found,
        LatticeCandidate { axis_index: 1, pitch_ticks: 5, sites: 4, votes: 4 }
    );
    assert!(find_candidate(15, 15, &rows).is_none());
    assert!(find_candidate(16, 15, &rows).is_none());
    assert!(find_candidate(16, 16, &rows[1..].iter().map(|r| row(r.axis, &r.ticks)).collect()).is_none());
    assert!(find_candidate(16, 16, &Vec::new()).is_none());
}

fn place(face: u64, site: Option<usize>, gap: Option<usize>, side: Side) -> FacePlace {
    FacePlace {
        face,
        sites: site.into_iter().collect(),
        wide: face == 8,
        gap,
        sort: 0,
        side,
    }
}

/// Four sites, three gaps, a stretched face and a face at each end.
fn good_places() -> Vec<FacePlace> {
    let mut out: Vec<FacePlace> = (0..4)
        .map(|k| place(k + 1, Some(k as usize), None, Side::Middle))
        .collect();
    out.extend((0..3).map(|k| place(k + 5, None, Some(k as usize), Side::Middle)));
    out.push(place(8, None, None, Side::Middle));
    out.push(place(9, None, None, Side::Negative));
    out.push(place(10, None, None, Side::Positive));
    out
}

/// The same faces, with both ends on one side.
fn uneven_places() -> Vec<FacePlace> {
    let mut out = good_places();
    out[8].side = Side::Positive;
    out
}

fn faces() -> Vec<FaceEdges> {
    let pairs = [(1, 5), (5, 2), (2, 6), (6, 3), (3, 7), (7, 4), (9, 1), (4, 10), (8, 1)];
    (1..=10)
        .map(|face| FaceEdges {
            face,
            edges: (0..pairs.len() as u64)
                .filter(|k| pairs[*k as usize].0 == face || pairs[*k as usize].1 == face)
                .collect(),
        })
        .collect()
}

fn window(start: i64, observations: usize) -> Window {
    Window { start, observations }
}

fn frame(solid_id: u64, total_faces: usize) -> ChainFrame {
    ChainFrame {
        solid_id,
        total_faces,
        unmeasured: 0,
        faces: faces(),
        candidate: LatticeCandidate { axis_index: 1, pitch_ticks: 5, sites: 4, votes: 4 },
        pitch: 5.0f64.to_bits(),
    }
}

#[test]
fn the_best_window_is_chosen() {
    let windows = vec![window(0, 9), window(5, 1), window(10, 2), window(15, 2)];
    let places = vec![uneven_places(), good_places(), good_places(), good_places()];
    let (best, partition) = choose_partition(&windows, &places, 4).unwrap();
    assert_eq!(best, 2);
    assert_eq!(partition.negative, vec![9]);
    assert_eq!(partition.positive, vec![10]);
    assert!(choose_partition(&windows, &places, 1).is_none());
    assert!(choose_partition(&Vec::new(), &Vec::new(), 4).is_none());
}

fn sorted(list: &Vec<(String, usize)>) -> Vec<(String, usize)> {
    let mut out = list.clone();
    out.sort();
    out
}

fn counts(list: &[(&str, usize)]) -> Vec<(String, usize)> {
    list.iter().map(|(name, n)| (name.to_string(), *n)).collect()
}

#[test]
fn chains_are_described() {
    let windows = vec![window(0, 4)];
    let (_, partition) = choose_partition(&windows, &vec![good_places()], 4).unwrap();
    let found = build_pattern(frame(77, 10), partition, vec![7, 8, 9, 10]);
    let chain = &found;
    assert_eq!(chain.solid_id, 77);
    assert_eq!(chain.axis, SECOND);
    assert_eq!(chain.pitch, 5.0f64.to_bits());
    assert_eq!(chain.sites, 4);
    assert_eq!(chain.site_centers, vec![7, 8, 9, 10]);
    assert_eq!(chain.lattice_face_family_votes, 4);
    assert!(chain.complete_partition);
    assert!(chain.read_only_proven);
    assert_eq!(chain.nonmanifold_edges, 0);
    assert_eq!(chain.cross_site_edges, 0);
    assert_eq!(chain.site_face_counts, vec![1, 1, 1, 1]);
    assert_eq!(chain.gap_face_counts, vec![1, 1, 1]);
    assert_eq!(chain.site_face_ids, vec![vec![1], vec![2], vec![3], vec![4]]);
    assert_eq!(chain.gap_face_ids, vec![vec![5], vec![6], vec![7]]);
    assert_eq!(chain.stretch_face_ids, vec![8]);
    assert_eq!(
        sorted(&chain.site_adjacency[0]),
        counts(&[("fixed", 1), ("gap:+0", 1), ("stretch", 1)])
    );
    assert_eq!(sorted(&chain.site_adjacency[2]), counts(&[("gap:+0", 1), ("gap:-1", 1)]));
    assert_eq!(sorted(&chain.gap_adjacency[1]), counts(&[("site:+0", 1), ("site:+1", 1)]));
    assert_eq!(found.total_faces, 10);
    assert_eq!(
        sorted(&found.edge_category_counts.entries),
        counts(&[("fixed|site", 2), ("gap|site", 6), ("site|stretch", 1)])
    );
}

/// Writes solids whose faces follow a lattice.
struct Solids {
    lines: Vec<String>,
    next: u64,
    forms: HashMap<u64, FaceForm>,
}

impl Solids {
    fn new() -> Solids {
        Solids {
            lines: Vec::new(),
            next: 1,
            forms: HashMap::new(),
        }
    }

    fn push(&mut self, text: String) -> u64 {
        let id = self.next;
        self.next += 1;
        self.lines.push(format!("#{id}={text};"));
        id
    }

    fn face(&mut self, form: u64, center: [i64; 3], edges: &[u64]) -> u64 {
        let mut uses = Vec::new();
        for edge in edges {
            uses.push(format!("#{}", self.push(format!("ORIENTED_EDGE('',*,*,#{edge},.T.)"))));
        }
        let list = uses.join(",");
        let edge_loop = self.push(format!("EDGE_LOOP('',({list}))"));
        let bound = self.push(format!("FACE_OUTER_BOUND('',#{edge_loop},.T.)"));
        let face = self.push(format!("ADVANCED_FACE('',(#{bound}),#{},.T.)", if form < 10 { 1 } else { 2 }));
        self.forms.insert(face, FaceForm { form, center });
        face
    }

    /// A solid with four faces at each of four sites, a face in each gap, a face along all
    /// sites, a face at each end, and some faces that were not measured.
    fn chain(&mut self, unmeasured: usize) -> (u64, Vec<u64>) {
        let edge = |solids: &mut Solids| solids.push("EDGE_CURVE('',#1,#1,#1,.T.)".to_string());
        let between: Vec<u64> = (0..5).map(|_| edge(self)).collect();
        let after: Vec<u64> = (0..3).map(|_| edge(self)).collect();
        let along = edge(self);
        let mut faces = Vec::new();
        for k in 0..4usize {
            let inner: Vec<u64> = (0..3).map(|_| edge(self)).collect();
            for family in 0..4u64 {
                let mut edges = Vec::new();
                if family == 0 {
                    edges.push(if k == 0 { between[0] } else { after[k - 1] });
                    edges.push(if k == 3 { between[4] } else { between[k + 1] });
                    if k == 0 {
                        edges.push(along);
                    }
                    edges.extend(&inner);
                } else {
                    edges.push(inner[family as usize - 1]);
                }
                faces.push(self.face(family, [family as i64, 5 * k as i64, 0], &edges));
            }
        }
        for k in 0..3usize {
            faces.push(self.face(10, [9, 5 * k as i64 + 3, 1 + k as i64], &[between[k + 1], after[k]]));
        }
        faces.push(self.face(11, [8, 7, 8], &[along]));
        faces.push(self.face(12, [8, -4, 9], &[between[0]]));
        faces.push(self.face(12, [8, 19, 10], &[between[4]]));
        let mut all = faces.clone();
        for _ in 0..unmeasured {
            let face = self.face(13, [0; 3], &[along]);
            self.forms.remove(&face);
            all.push(face);
        }
        let list: Vec<String> = all.iter().map(|face| format!("#{face}")).collect();
        let shell = self.push(format!("CLOSED_SHELL('',({}))", list.join(",")));
        (self.push(format!("MANIFOLD_SOLID_BREP('',#{shell})")), faces)
    }

    fn file(&self) -> Vec<u8> {
        format!(
            "ISO-10303-21;\nHEADER;\nFILE_DESCRIPTION((''),'2;1');\nFILE_NAME('','',(''),(''),'','','');\nFILE_SCHEMA(('S'));\nENDSEC;\nDATA;\n{}\nENDSEC;\nEND-ISO-10303-21;\n",
            self.lines.join("\n")
        )
        .into_bytes()
    }
}

fn place_faces(faces: &[u64], uneven: bool) -> Vec<FacePlace> {
    let at = |k: usize, site: Option<usize>, gap: Option<usize>, side: Side| FacePlace {
        face: faces[k],
        sites: site.into_iter().collect(),
        wide: k == 19,
        gap,
        sort: 0,
        side,
    };
    let mut out: Vec<FacePlace> = (0..16).map(|k| at(k, Some(k / 4), None, Side::Middle)).collect();
    out.extend((0..3).map(|k| at(16 + k, None, Some(k), Side::Middle)));
    out.push(at(19, None, None, Side::Middle));
    out.push(at(20, None, None, if uneven { Side::Positive } else { Side::Negative }));
    out.push(at(21, None, None, Side::Positive));
    out
}

/// What is measured of a solid: at each window the faces are in the same places.
fn measure(
    entities: &Vec<EntityInstance>,
    forms: &HashMap<u64, FaceForm>,
    solid: u64,
    faces: &[u64],
    uneven: bool,
) -> ChainEvidence {
    let narrow = faces.iter().enumerate().map(|(k, face)| (*face, k < 16)).collect();
    let found = read_faces(solid, entities, &build_index(entities), forms).unwrap();
    let candidate = find_candidate(
        found.total,
        found.faces.len(),
        &face_rows(&found.faces, forms),
    )
    .unwrap();
    assert_eq!(
        candidate,
        LatticeCandidate { axis_index: 1, pitch_ticks: 5, sites: 4, votes: 4 }
    );
    let windows = chain_windows(&found.faces, forms, &narrow, &candidate);
    assert!(!windows.is_empty());
    ChainEvidence {
        narrow,
        pitch: 5.0f64.to_bits(),
        places: windows.iter().map(|_| place_faces(faces, uneven)).collect(),
        centers: windows.iter().map(|_| vec![1, 2, 3, 4]).collect(),
    }
}

fn nothing() -> ChainEvidence {
    ChainEvidence {
        narrow: HashMap::new(),
        pitch: 0,
        places: Vec::new(),
        centers: Vec::new(),
    }
}

fn three_solids() -> (Vec<u8>, Vec<EntityInstance>, HashMap<u64, FaceForm>, [(u64, Vec<u64>); 3]) {
    let mut solids = Solids::new();
    solids.push("CYLINDRICAL_SURFACE('',$,1.)".to_string());
    solids.push("PLANE('',$)".to_string());
    let a = solids.chain(3);
    let b = solids.chain(0);
    let c = solids.chain(0);
    let file = solids.file();
    let (mut exchange, _) = read_exchange(&file).unwrap();
    let entities = exchange.data.remove(0).entities;
    (file, entities, solids.forms, [a, b, c])
}

#[test]
fn proven_chains_come_first() {
    let (_, entities, forms, [a, b, c]) = three_solids();
    let evidence = vec![
        measure(&entities, &forms, a.0, &a.1, false),
        measure(&entities, &forms, b.0, &b.1, true),
        measure(&entities, &forms, c.0, &c.1, false),
    ];
    let found = detect_periodic_chains(&entities, &forms, evidence).unwrap();
    let solids: Vec<u64> = found.iter().map(|found| found.solid_id).collect();
    assert_eq!(solids, vec![c.0, b.0, a.0]);
    let proven: Vec<bool> = found.iter().map(|found| found.read_only_proven).collect();
    assert_eq!(proven, vec![true, false, false]);
    assert_eq!(found[2].total_faces, 25);
    assert_eq!(found[0].sites, 4);
    assert_eq!(found[0].axis, SECOND);
    assert_eq!(found[0].site_face_ids[1], c.1[4..8].to_vec());
    assert!(detect_periodic_chains(&entities, &forms, Vec::new()).is_none());
}

#[test]
fn solids_without_lattices_or_places_hold_no_chains() {
    let (_, entities, forms, [a, b, _]) = three_solids();
    let index = build_index(&entities);
    assert!(find_chain(a.0, &entities, &index, &forms, nothing()).is_none());
    assert!(find_chain(b.0, &entities, &index, &HashMap::new(), nothing()).is_none());
    let mut wrong = measure(&entities, &forms, b.0, &b.1, false);
    wrong.places[0][0].face = 0;
    assert!(find_chain(b.0, &entities, &index, &forms, wrong).is_none());
    let right = measure(&entities, &forms, b.0, &b.1, false);
    let found = find_chain(b.0, &entities, &index, &forms, right).unwrap();
    assert_eq!(found.solid_id, b.0);
    assert!(find_chain(1, &entities, &index, &forms, nothing()).is_none());
}

fn sheet(solid_id: u64, faces: &[u64]) -> SheetMeasure {
    let pair = |k: usize| SheetCylinderPair {
        inner_face_id: faces[2 * k],
        outer_face_id: faces[2 * k + 1],
        inner_radius: 1.0f64.to_bits(),
        outer_radius: 2.0f64.to_bits(),
        axis: [0, 0, 1.0f64.to_bits()],
        ticks: 100_000,
    };
    SheetMeasure {
        solid_id,
        cylinders: 8,
        planes: 4,
        pairs: (0..4).map(pair).collect(),
        separations: vec![100_000, 100_000],
    }
}

#[test]
fn chains_and_sheets_of_a_file() {
    let (file, entities, forms, [a, b, c]) = three_solids();
    let section = || SectionEvidence {
        forms: forms.clone(),
        solids: vec![
            measure(&entities, &forms, a.0, &a.1, false),
            measure(&entities, &forms, b.0, &b.1, false),
            nothing(),
        ],
    };
    let found = detect_periodic_chains_bytes(&file, vec![section()]).unwrap();
    let solids: Vec<u64> = found.iter().map(|found| found.solid_id).collect();
    assert_eq!(solids, vec![b.0, a.0]);
    assert!(matches!(
        detect_periodic_chains_bytes(b"nothing", Vec::new()),
        Err(ReportError::Read(StepError::Parse))
    ));
    assert!(matches!(
        detect_periodic_chains_bytes(&file, Vec::new()),
        Err(ReportError::NotMeasured)
    ));
    let mut short = section();
    short.solids.pop();
    assert!(matches!(
        detect_periodic_chains_bytes(&file, vec![short]),
        Err(ReportError::NotMeasured)
    ));

    let flat = SheetMeasure {
        solid_id: b.0,
        cylinders: 0,
        planes: 0,
        pairs: Vec::new(),
        separations: Vec::new(),
    };
    let sheets = vec![vec![sheet(a.0, &a.1), flat, sheet(c.0, &c.1)]];
    let found = detect_formed_sheet_evidence_bytes(&file, &sheets).unwrap();
    let mut solids: Vec<u64> = found.iter().map(|found| found.solid_id).collect();
    solids.sort();
    assert_eq!(solids, vec![a.0, c.0]);
    assert!(matches!(
        detect_formed_sheet_evidence_bytes(&file, &vec![vec![sheet(a.0, &a.1)]]),
        Err(ReportError::NotMeasured)
    ));
    let mut foreign = sheet(a.0, &a.1);
    foreign.pairs[0].inner_face_id = a.1[20];
    let flat = SheetMeasure {
        solid_id: b.0,
        cylinders: 0,
        planes: 0,
        pairs: Vec::new(),
        separations: Vec::new(),
    };
    assert!(matches!(
        detect_formed_sheet_evidence_bytes(&file, &vec![vec![foreign, flat, sheet(c.0, &c.1)]]),
        Err(ReportError::NotMeasured)
    ));
    assert!(matches!(
        detect_formed_sheet_evidence_bytes(b"nothing", &sheets),
        Err(ReportError::Read(StepError::Parse))
    ));
    let none: Vec<Vec<SheetMeasure>> = vec![Vec::new()];
    assert!(detect_formed_sheet_evidence_bytes(FILE, &none).unwrap().is_empty());
}

fn stats(old_sites: usize, new_sites: usize) -> PeriodicChainResizeStats {
    PeriodicChainResizeStats {
        old_sites,
        new_sites,
        inserted_units: new_sites - old_sites,
        removed_units: 0,
        seam_edge_pairs: 0,
        welded_vertices: 0,
        welded_edges: 0,
        rebuilt_stretch_faces: 0,
        new_stretch_edges: 0,
        added_entities: 0,
        pruned_entities: 0,
        entity_delta: 0,
    }
}

#[test]
fn chains_are_edited_at_both_ends() {
    let (file, entities, forms, [_, b, _]) = three_solids();
    let index = build_index(&entities);
    let chain = |sites: usize| {
        let evidence = measure(&entities, &forms, b.0, &b.1, false);
        let mut chain = find_chain(b.0, &entities, &index, &forms, evidence).unwrap();
        chain.sites = sites;
        chain
    };
    let plan =
        resize_periodic_chain_bytes_with_anchor(&file, vec![chain(4)], 0, 8, CountAnchor::Center);
    assert!(matches!(
        plan.unwrap(),
        ChainPlan::BothSides { mid_sites: 6, new_sites: 8 }
    ));
    let start =
        resize_periodic_chain_bytes_with_anchor(&file, vec![chain(4)], 0, 6, CountAnchor::Start);
    let start = match start.unwrap() {
        ChainPlan::OneSide(edit) => edit,
        ChainPlan::BothSides { .. } => panic!("both sides"),
    };
    assert!(start.grows);
    assert_eq!(start.chain.axis, SECOND);
    let before = start.exchange.data[0].entities.len() - 3;
    let finish = |sites: usize, from: usize, same_pitch: bool| {
        finish_chain_edit(
            &start.exchange,
            &chain(from),
            sites,
            before,
            stats(from, sites),
            vec![chain(sites)],
            &vec![same_pitch],
        )
    };
    assert_eq!(finish(6, 4, false).unwrap_err(), EditError::NotVerified);
    let first = finish(6, 4, true).unwrap();
    assert_eq!(first.periodic_chains[0].sites, 6);
    assert_eq!(first.periodic_chains[0].total_faces, chain(6).total_faces);
    assert_eq!(first.resize.added_entities, 3);
    assert_eq!(first.resize.entity_delta, 3);

    let rest =
        resume_chain_center(&first, &vec![true], &chain(4), 6, 8, vec![chain(6)]).unwrap();
    assert!(rest.grows);
    assert_eq!(rest.new_sites, 8);
    assert_eq!(rest.chain.axis, [-0.0f64, -1.0, -0.0].map(f64::to_bits));
    assert_eq!(rest.chain.total_faces, chain(6).total_faces);
    assert_eq!(
        rest.chain.edge_category_counts.entries,
        chain(6).edge_category_counts.entries
    );
    let mut ends = rest.chain.site_face_ids.clone();
    ends.reverse();
    assert_eq!(ends, chain(6).site_face_ids);
    assert_eq!(
        resume_chain_center(&first, &vec![false], &chain(4), 6, 8, vec![chain(6)]).unwrap_err(),
        EditError::NotRediscovered
    );
    let second = finish(8, 6, true).unwrap();
    let both = combine_chain_edits(&first.resize, second, 4, 8);
    assert_eq!(both.resize.old_sites, 4);
    assert_eq!(both.resize.new_sites, 8);
    assert_eq!(both.resize.inserted_units, 4);
    assert_eq!(both.resize.added_entities, 6);
    assert_eq!(both.resize.entity_delta, 6);
}

#[test]
fn edited_chains_are_settled() {
    let (mut exchange, _) = read_exchange(&file_with(
        "#4=CARTESIAN_POINT('',(0.,0.,0.));\n#7=CARTESIAN_POINT('',(0.,0.,0.));\n\
         #8=VERTEX_POINT('',#7);\n#9=VERTEX_POINT('',#4);\n#12=PLANE('',#4);\n#13=PLANE('',#7);\n\
         #14=ADVANCED_FACE('',(),#12,.T.);\n#15=ADVANCED_FACE('',(),#13,.T.);",
    ))
    .unwrap();
    let before = exchange.data[0].entities.len();
    assert_eq!(before, 8);
    exchange = merge_chain_edit(exchange, &HashMap::new());
    assert_eq!(exchange.data[0].entities.len(), 6);
    exchange.data[0].entities.remove(1);
    let (settled, resize) = settle_chain_edit(exchange, stats(4, 6), 1);
    assert_eq!(resize.pruned_entities, 1);
    assert_eq!(resize.inserted_units, 2);
    let ids: Vec<u64> = settled.data[0]
        .entities
        .iter()
        .map(|entity| match entity {
            EntityInstance::Simple { id, .. } => *id,
            EntityInstance::Complex { id, .. } => *id,
        })
        .collect();
    assert_eq!(ids, vec![1, 2, 3, 4, 5]);

    let (_, entities, forms, [_, b, _]) = three_solids();
    let index = build_index(&entities);
    let chain = || {
        let evidence = measure(&entities, &forms, b.0, &b.1, false);
        find_chain(b.0, &entities, &index, &forms, evidence).unwrap()
    };
    let out = finish_chain_edit(
        &settled,
        &chain(),
        4,
        before,
        resize,
        vec![chain()],
        &vec![true],
    )
    .unwrap();
    assert_eq!(out.resize.added_entities, 0);
    assert_eq!(out.resize.entity_delta, -3);
    assert_eq!(out.resize.pruned_entities, 1);
}

fn file_with(data: &str) -> Vec<u8> {
    let text = std::str::from_utf8(FILE).unwrap();
    text.replace("#1=CARTESIAN_POINT('',(0.,0.,0.));", data).into_bytes()
}

fn extrusion(solid_id: u64) -> RecoveredSolidExtrusion {
    let zero = Scalar(0);
    RecoveredSolidExtrusion {
        solid_id,
        cap_face_ids: [1, 2],
        side_face_ids: Vec::new(),
        profile_curves: Vec::new(),
        inner_profile_loops: Vec::new(),
        origin: [zero; 3],
        x_axis: [zero; 3],
        y_axis: [zero; 3],
        z_axis: [zero; 3],
        height: zero,
        max_residual: zero,
    }
}

#[test]
fn extrusions_of_a_file() {
    let (file, _, _, [a, b, c]) = three_solids();
    let found = detect_solid_extrusions_bytes(&file, vec![vec![extrusion(c.0), extrusion(a.0)]]);
    let solids: Vec<u64> = found.unwrap().iter().map(|found| found.solid_id).collect();
    assert_eq!(solids, vec![c.0, a.0]);
    assert!(matches!(
        detect_solid_extrusions_bytes(&file, vec![vec![extrusion(b.0 + 1_000_000)]]),
        Err(ReportError::NotMeasured)
    ));
    assert!(matches!(
        detect_solid_extrusions_bytes(&file, Vec::new()),
        Err(ReportError::NotMeasured)
    ));
    assert!(matches!(
        detect_solid_extrusions_bytes(b"nothing", Vec::new()),
        Err(ReportError::Read(StepError::Parse))
    ));
    assert!(detect_solid_extrusions_bytes(FILE, vec![Vec::new()]).unwrap().is_empty());
}

#[test]
fn chains_that_cannot_be_edited_stay() {
    let (file, entities, forms, [_, b, _]) = three_solids();
    let index = build_index(&entities);
    let chain = || {
        let evidence = measure(&entities, &forms, b.0, &b.1, false);
        find_chain(b.0, &entities, &index, &forms, evidence).unwrap()
    };
    let grow = |index: usize, sites: usize| {
        expand_periodic_chain_bytes(&file, vec![chain()], index, sites)
    };
    assert_eq!(grow(1, 6).unwrap_err(), EditError::NotFound);
    assert!(grow(0, 4).is_err());
    assert!(grow(0, 3).is_err());
    assert!(matches!(grow(0, 6), Ok(ChainPlan::OneSide(_))));
}
