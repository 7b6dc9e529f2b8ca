//! The edges that the faces of a resized body get.

use std::collections::{HashMap, HashSet};
use vstd::prelude::*;

use crate::ast::{entities_view, EntityInstance, EntityView};
use crate::body_graph::{boundary, corners, face_edges_ordered, face_vertices, BodyError};
use crate::face_coalesce::append_ids;
use crate::face_plan::listed;
use crate::graph::{add_entry, indexes};
use crate::sets::{ascending, sorted_of, sorted_set};

verus! {

broadcast use vstd::std_specs::hash::group_hash_axioms;

/// Every face has edges around it.
pub open spec fn all_bounded(entities: Seq<EntityView>, faces: Seq<u64>) -> bool {
    forall|i: int| 0 <= i < faces.len() ==> boundary(entities, #[trigger] faces[i]) is Some
}

/// The edges around faces.
pub open spec fn edges_around(entities: Seq<EntityView>, faces: Seq<u64>) -> Seq<u64>
    decreases faces.len(),
{
    if faces.len() == 0 {
        Seq::empty()
    } else {
        edges_around(entities, faces.drop_last()) + boundary(entities, faces.last())->Some_0
    }
}

/// The faces that an edge is around.
pub open spec fn faces_at(entities: Seq<EntityView>, faces: Seq<u64>, edge: u64) -> Seq<u64>
    decreases faces.len(),
{
    if faces.len() == 0 {
        Seq::empty()
    } else {
        let rest = faces_at(entities, faces.drop_last(), edge);
        if boundary(entities, faces.last())->Some_0.contains(edge) {
            rest.push(faces.last())
        } else {
            rest
        }
    }
}

/// The faces of each edge, and the edges in ascending order.
pub struct EdgeTable {
    pub faces: HashMap<u64, Vec<u64>>,
    pub edges: Vec<u64>,
}

impl EdgeTable {
    /// Holds the edges around faces.
    pub open spec fn holds(&self, entities: Seq<EntityView>, faces: Seq<u64>) -> bool {
        &&& self.edges@ == sorted_of(edges_around(entities, faces))
        &&& forall|edge: u64| #[trigger]
            listed(self.faces@, edge) == faces_at(entities, faces, edge)
    }
}

/// The edges around faces. There are none where a face is malformed.
pub fn edge_faces(
    faces: &Vec<u64>,
    entities: &Vec<EntityInstance>,
    index: &HashMap<u64, usize>,
) -> (out: Option<EdgeTable>)
    requires
        indexes(index@, entities_view(entities@)),
    ensures
        out is Some == all_bounded(entities_view(entities@), faces@),
        out matches Some(table) ==> table.holds(entities_view(entities@), faces@),
{
    let ghost views = entities_view(entities@);
    let mut table: HashMap<u64, Vec<u64>> = HashMap::new();
    let mut all: Vec<u64> = Vec::new();
    let mut i: usize = 0;
    assert(faces@.take(0) =~= Seq::<u64>::empty());
    while i < faces.len()
        invariant
            i <= faces.len(),
            views == entities_view(entities@),
            indexes(index@, views),
            forall|k: int| 0 <= k < i ==> boundary(views, #[trigger] faces@[k]) is Some,
            all@ == edges_around(views, faces@.take(i as int)),
            forall|edge: u64| #[trigger]
                listed(table@, edge) == faces_at(views, faces@.take(i as int), edge),
        decreases faces.len() - i,
    {
        let face: u64 = faces[i];
        assert(faces@.take(i + 1).drop_last() =~= faces@.take(i as int));
        assert(faces@.take(i + 1).last() == face);
        let edges = match face_edges_ordered(face, entities, index) {
            Some(edges) => edges,
            None => {
                assert(boundary(views, faces@[i as int]) is None);
                return None;
            },
        };
        let unique = sorted_set(&edges);
        append_ids(&mut all, &edges);
        let ghost before = table@;
        let mut k: usize = 0;
        assert(unique@.take(0) =~= Seq::<u64>::empty());
        while k < unique.len()
            invariant
                k <= unique.len(),
                ascending(unique@),
                forall|edge: u64| #[trigger]
                    listed(table@, edge) == if unique@.take(k as int).contains(edge) {
                        listed(before, edge).push(face)
                    } else {
                        listed(before, edge)
                    },
            decreases unique.len() - k,
        {
            let edge: u64 = unique[k];
            let ghost was = table@;
            add_entry(&mut table, edge, face);
            assert forall|other: u64| #[trigger]
                listed(table@, other) == if unique@.take(k + 1).contains(other) {
                    listed(before, other).push(face)
                } else {
                    listed(before, other)
                } by {
                let seen = unique@.take(k as int);
                let now = unique@.take(k + 1);
                assert(listed(was, other) == if seen.contains(other) {
                    listed(before, other).push(face)
                } else {
                    listed(before, other)
                });
                assert(now =~= seen.push(edge));
                assert(table@.dom().contains(other) == (was.dom().contains(other) || other
                    == edge));
                if other == edge {
                    assert(now[k as int] == edge);
                    if seen.contains(edge) {
                        let j = choose|j: int| 0 <= j < k && seen[j] == edge;
                        assert(unique@[j] == unique@[k as int]);
                        assert(unique@[j] < unique@[k as int]);
                    }
                } else {
                    if seen.contains(other) {
                        let j = choose|j: int| 0 <= j < k && seen[j] == other;
                        assert(now[j] == other);
                    }
                    if now.contains(other) {
                        let j = choose|j: int| 0 <= j < k + 1 && now[j] == other;
                        assert(seen[j] == other);
                    }
                    if was.contains_key(other) {
                        assert(table@[other] == was[other]);
                    }
                }
            }
            k = k + 1;
        }
        assert(unique@.take(unique@.len() as int) =~= unique@);
        assert forall|edge: u64| #[trigger]
            listed(table@, edge) == faces_at(views, faces@.take(i + 1), edge) by {
            assert(listed(before, edge) == faces_at(views, faces@.take(i as int), edge));
            assert(unique@.contains(edge) == edges@.contains(edge));
        }
        i = i + 1;
    }
    assert(faces@.take(faces@.len() as int) =~= faces@);
    let edges = sorted_set(&all);
    Some(EdgeTable { faces: table, edges })
}

/// Whether one of some faces is among others.
pub open spec fn any_in(faces: Seq<u64>, among: Set<u64>) -> bool {
    exists|i: int| 0 <= i < faces.len() && among.contains(#[trigger] faces[i])
}

/// The first of some faces that is among others.
pub open spec fn first_in(faces: Seq<u64>, among: Set<u64>) -> Option<u64>
    decreases faces.len(),
{
    if faces.len() == 0 {
        None
    } else if among.contains(faces[0]) {
        Some(faces[0])
    } else {
        first_in(faces.drop_first(), among)
    }
}

/// An edge for each of some faces that is among others.
pub open spec fn marks_of(faces: Seq<u64>, among: Set<u64>, edge: u64) -> Seq<(u64, u64)>
    decreases faces.len(),
{
    if faces.len() == 0 {
        Seq::empty()
    } else {
        let rest = marks_of(faces.drop_last(), among, edge);
        if among.contains(faces.last()) {
            rest.push((faces.last(), edge))
        } else {
            rest
        }
    }
}

pub(crate) fn find_any_in(faces: &Vec<u64>, among: &HashSet<u64>) -> (out: bool)
    ensures
        out == any_in(faces@, among@),
{
    let mut i: usize = 0;
    while i < faces.len()
        invariant
            i <= faces.len(),
            forall|k: int| 0 <= k < i ==> !among@.contains(#[trigger] faces@[k]),
        decreases faces.len() - i,
    {
        if among.contains(&faces[i]) {
            assert(among@.contains(faces@[i as int]));
            return true;
        }
        i = i + 1;
    }
    false
}

pub(crate) fn find_first_in(faces: &Vec<u64>, among: &HashSet<u64>) -> (out: Option<u64>)
    ensures
        out == first_in(faces@, among@),
{
    let mut i: usize = 0;
    assert(faces@.skip(0) =~= faces@);
    while i < faces.len()
        invariant
            i <= faces.len(),
            first_in(faces@, among@) == first_in(faces@.skip(i as int), among@),
        decreases faces.len() - i,
    {
        assert(faces@.skip(i as int)[0] == faces@[i as int]);
        assert(faces@.skip(i as int).drop_first() =~= faces@.skip(i + 1));
        if among.contains(&faces[i]) {
            return Some(faces[i]);
        }
        i = i + 1;
    }
    None
}

pub(crate) fn push_marks(
    out: &mut Vec<(u64, u64)>,
    faces: &Vec<u64>,
    among: &HashSet<u64>,
    edge: u64,
)
    ensures
        final(out)@ == old(out)@ + marks_of(faces@, among@, edge),
{
    let ghost before = out@;
    let mut i: usize = 0;
    assert(faces@.take(0) =~= Seq::<u64>::empty());
    assert(before + marks_of(faces@.take(0), among@, edge) =~= before);
    while i < faces.len()
        invariant
            i <= faces.len(),
            out@ == before + marks_of(faces@.take(i as int), among@, edge),
        decreases faces.len() - i,
    {
        assert(faces@.take(i + 1).drop_last() =~= faces@.take(i as int));
        assert(faces@.take(i + 1).last() == faces@[i as int]);
        let ghost rest = marks_of(faces@.take(i as int), among@, edge);
        if among.contains(&faces[i]) {
            out.push((faces[i], edge));
            assert(out@ =~= before + rest.push((faces@[i as int], edge)));
        }
        i = i + 1;
    }
    assert(faces@.take(faces@.len() as int) =~= faces@);
}

/// The faces that an edge is around.
pub(crate) fn faces_of<'a>(table: &'a EdgeTable, edge: u64, none: &'a Vec<u64>) -> (out: &'a Vec<
    u64,
>)
    requires
        none@.len() == 0,
    ensures
        out@ == listed(table.faces@, edge),
{
    match table.faces.get(&edge) {
        Some(list) => list,
        None => {
            assert(none@ =~= Seq::<u64>::empty());
            none
        },
    }
}

/// The faces of a body that matter for the edges of stretched faces.
#[verifier::ext_equal]
pub struct SceneView {
    pub entities: Seq<EntityView>,
    pub faces: Seq<u64>,
    /// The faces of sites that stay.
    pub kept: Set<u64>,
    /// The faces of the site that is copied.
    pub model: Set<u64>,
    pub stretch: Set<u64>,
    pub fixed: Set<u64>,
    /// The fixed faces at the end that moves.
    pub right: Set<u64>,
}

impl SceneView {
    /// The edges around the faces, in ascending order.
    pub open spec fn edges(self) -> Seq<u64> {
        sorted_of(edges_around(self.entities, self.faces))
    }

    /// The faces that an edge is around.
    pub open spec fn at(self, edge: u64) -> Seq<u64> {
        faces_at(self.entities, self.faces, edge)
    }
}

/// The faces of a body by what becomes of them, and the edges around them.
pub struct Scene {
    pub table: EdgeTable,
    pub kept: HashSet<u64>,
    pub model: HashSet<u64>,
    pub stretch: HashSet<u64>,
    pub fixed: HashSet<u64>,
    pub right: HashSet<u64>,
}

impl Scene {
    pub open spec fn shows(&self, view: SceneView) -> bool {
        &&& self.table.holds(view.entities, view.faces)
        &&& self.kept@ == view.kept
        &&& self.model@ == view.model
        &&& self.stretch@ == view.stretch
        &&& self.fixed@ == view.fixed
        &&& self.right@ == view.right
    }
}

/// Where the first `n` edges meet sites that stay.
pub open spec fn site_marks(scene: SceneView, n: nat) -> Seq<(u64, u64)>
    decreases n,
{
    if n == 0 {
        Seq::empty()
    } else {
        let rest = site_marks(scene, (n - 1) as nat);
        let edge = scene.edges()[n - 1];
        let faces = scene.at(edge);
        if any_in(faces, scene.kept) {
            rest + marks_of(faces, scene.stretch, edge)
        } else {
            rest
        }
    }
}

pub(crate) fn find_site_marks(scene: &Scene, Ghost(view): Ghost<SceneView>) -> (out: Vec<(u64, u64)>)
    requires
        scene.shows(view),
    ensures
        out@ == site_marks(view, view.edges().len()),
{
    let none: Vec<u64> = Vec::new();
    let mut out: Vec<(u64, u64)> = Vec::new();
    let mut i: usize = 0;
    while i < scene.table.edges.len()
        invariant
            i <= scene.table.edges.len(),
            scene.shows(view),
            none@.len() == 0,
            out@ == site_marks(view, i as nat),
        decreases scene.table.edges.len() - i,
    {
        let edge: u64 = scene.table.edges[i];
        let faces = faces_of(&scene.table, edge, &none);
        assert(faces@ == view.at(edge));
        if find_any_in(faces, &scene.kept) {
            push_marks(&mut out, faces, &scene.stretch, edge);
        }
        i = i + 1;
    }
    out
}

/// Where the first `n` edges of a copied site meet stretched faces.
pub open spec fn copy_marks(
    scene: SceneView,
    map: Map<u64, u64>,
    n: nat,
) -> Result<Seq<(u64, u64)>, BodyError>
    decreases n,
{
    if n == 0 {
        Ok(Seq::empty())
    } else {
        match copy_marks(scene, map, (n - 1) as nat) {
            Err(error) => Err(error),
            Ok(rest) => {
                let edge = scene.edges()[n - 1];
                let faces = scene.at(edge);
                match first_in(faces, scene.stretch) {
                    Some(face) if any_in(faces, scene.model) => if map.contains_key(edge) {
                        Ok(rest.push((face, map[edge])))
                    } else {
                        Err(BodyError::MissingCopy)
                    },
                    _ => Ok(rest),
                }
            },
        }
    }
}

proof fn lemma_copy_marks_stop(scene: SceneView, map: Map<u64, u64>, n: nat, m: nat)
    requires
        n <= m,
        copy_marks(scene, map, n) is Err,
    ensures
        copy_marks(scene, map, m) == copy_marks(scene, map, n),
    decreases m,
{
    if n < m {
        lemma_copy_marks_stop(scene, map, n, (m - 1) as nat);
    }
}

pub(crate) fn find_copy_marks(scene: &Scene, Ghost(view): Ghost<SceneView>, map: &HashMap<u64, u64>) -> (out:
    Result<Vec<(u64, u64)>, BodyError>)
    requires
        scene.shows(view),
    ensures
        match (out, copy_marks(view, map@, view.edges().len())) {
            (Ok(marks), Ok(view)) => marks@ == view,
            (Err(a), Err(b)) => a == b,
            _ => false,
        },
{
    let none: Vec<u64> = Vec::new();
    let mut out: Vec<(u64, u64)> = Vec::new();
    let mut i: usize = 0;
    while i < scene.table.edges.len()
        invariant
            i <= scene.table.edges.len(),
            scene.shows(view),
            none@.len() == 0,
            copy_marks(view, map@, i as nat) == Ok::<_, BodyError>(out@),
        decreases scene.table.edges.len() - i,
    {
        let edge: u64 = scene.table.edges[i];
        let faces = faces_of(&scene.table, edge, &none);
        assert(faces@ == view.at(edge));
        if find_any_in(faces, &scene.model) {
            if let Some(face) = find_first_in(faces, &scene.stretch) {
                match map.get(&edge) {
                    Some(copy) => {
                        out.push((face, *copy));
                    },
                    None => {
                        proof {
                            lemma_copy_marks_stop(
                                view,
                                map@,
                                (i + 1) as nat,
                                view.edges().len(),
                            );
                        }
                        return Err(BodyError::MissingCopy);
                    },
                }
            }
        }
        i = i + 1;
    }
    Ok(out)
}

/// Where the first `n` edges of fixed faces meet stretched faces. At the end that moves the
/// copies of the edges do.
pub open spec fn cap_marks(
    scene: SceneView,
    map: Map<u64, u64>,
    n: nat,
) -> Result<Seq<(u64, u64)>, BodyError>
    decreases n,
{
    if n == 0 {
        Ok(Seq::empty())
    } else {
        match cap_marks(scene, map, (n - 1) as nat) {
            Err(error) => Err(error),
            Ok(rest) => {
                let edge = scene.edges()[n - 1];
                let faces = scene.at(edge);
                match first_in(faces, scene.fixed) {
                    Some(face) if any_in(faces, scene.stretch) => if !scene.right.contains(
                        face,
                    ) {
                        Ok(rest + marks_of(faces, scene.stretch, edge))
                    } else if map.contains_key(edge) {
                        Ok(rest + marks_of(faces, scene.stretch, map[edge]))
                    } else {
                        Err(BodyError::MissingCopy)
                    },
                    _ => Ok(rest),
                }
            },
        }
    }
}

proof fn lemma_cap_marks_stop(scene: SceneView, map: Map<u64, u64>, n: nat, m: nat)
    requires
        n <= m,
        cap_marks(scene, map, n) is Err,
    ensures
        cap_marks(scene, map, m) == cap_marks(scene, map, n),
    decreases m,
{
    if n < m {
        lemma_cap_marks_stop(scene, map, n, (m - 1) as nat);
    }
}

pub(crate) fn find_cap_marks(scene: &Scene, Ghost(view): Ghost<SceneView>, map: &HashMap<u64, u64>) -> (out:
    Result<Vec<(u64, u64)>, BodyError>)
    requires
        scene.shows(view),
    ensures
        match (out, cap_marks(view, map@, view.edges().len())) {
            (Ok(marks), Ok(view)) => marks@ == view,
            (Err(a), Err(b)) => a == b,
            _ => false,
        },
{
    let none: Vec<u64> = Vec::new();
    let mut out: Vec<(u64, u64)> = Vec::new();
    let mut i: usize = 0;
    while i < scene.table.edges.len()
        invariant
            i <= scene.table.edges.len(),
            scene.shows(view),
            none@.len() == 0,
            cap_marks(view, map@, i as nat) == Ok::<_, BodyError>(out@),
        decreases scene.table.edges.len() - i,
    {
        let edge: u64 = scene.table.edges[i];
        let faces = faces_of(&scene.table, edge, &none);
        assert(faces@ == view.at(edge));
        if find_any_in(faces, &scene.stretch) {
            if let Some(face) = find_first_in(faces, &scene.fixed) {
                if !scene.right.contains(&face) {
                    push_marks(&mut out, faces, &scene.stretch, edge);
                } else {
                    match map.get(&edge) {
                        Some(copy) => {
                            push_marks(&mut out, faces, &scene.stretch, *copy);
                        },
                        None => {
                            proof {
                                lemma_cap_marks_stop(
                                    view,
                                    map@,
                                    (i + 1) as nat,
                                    view.edges().len(),
                                );
                            }
                            return Err(BodyError::MissingCopy);
                        },
                    }
                }
            }
        }
        i = i + 1;
    }
    Ok(out)
}

/// The edges that are marked for a face.
pub open spec fn marked(marks: Seq<(u64, u64)>, face: u64) -> Seq<u64>
    decreases marks.len(),
{
    if marks.len() == 0 {
        Seq::empty()
    } else {
        let rest = marked(marks.drop_last(), face);
        if marks.last().0 == face {
            rest.push(marks.last().1)
        } else {
            rest
        }
    }
}

/// The edges that are marked for a face, in ascending order.
pub fn edges_for(marks: &Vec<(u64, u64)>, face: u64) -> (out: Vec<u64>)
    ensures
        out@ == sorted_of(marked(marks@, face)),
{
    let mut list: Vec<u64> = Vec::new();
    let mut i: usize = 0;
    assert(marks@.take(0) =~= Seq::<(u64, u64)>::empty());
    while i < marks.len()
        invariant
            i <= marks.len(),
            list@ == marked(marks@.take(i as int), face),
        decreases marks.len() - i,
    {
        assert(marks@.take(i + 1).drop_last() =~= marks@.take(i as int));
        assert(marks@.take(i + 1).last() == marks@[i as int]);
        if marks[i].0 == face {
            list.push(marks[i].1);
        }
        i = i + 1;
    }
    assert(marks@.take(marks@.len() as int) =~= marks@);
    sorted_set(&list)
}

/// Every vertex of some faces is in a known place.
pub open spec fn all_placed(places: Map<u64, u64>, vertices: Seq<u64>) -> bool {
    forall|i: int| 0 <= i < vertices.len() ==> places.contains_key(#[trigger] vertices[i])
}

/// The vertices of faces.
pub open spec fn all_corners(entities: Seq<EntityView>, faces: Seq<u64>) -> Option<Seq<u64>>
    decreases faces.len(),
{
    if faces.len() == 0 {
        Some(Seq::empty())
    } else {
        match (all_corners(entities, faces.drop_last()), corners(entities, faces.last())) {
            (Some(vertices), Some(more)) => Some(vertices + more),
            _ => None,
        }
    }
}

proof fn lemma_all_corners_stop(entities: Seq<EntityView>, faces: Seq<u64>, n: int)
    requires
        0 <= n <= faces.len(),
        all_corners(entities, faces.take(n)) is None,
    ensures
        all_corners(entities, faces) is None,
    decreases faces.len(),
{
    if n == faces.len() {
        assert(faces.take(n) =~= faces);
    } else {
        assert(faces.drop_last().take(n) =~= faces.take(n));
        lemma_all_corners_stop(entities, faces.drop_last(), n);
    }
}

pub(crate) fn find_all_corners(
    faces: &Vec<u64>,
    entities: &Vec<EntityInstance>,
    index: &HashMap<u64, usize>,
) -> (out: Option<Vec<u64>>)
    requires
        indexes(index@, entities_view(entities@)),
    ensures
        out is Some == all_corners(entities_view(entities@), faces@) is Some,
        out matches Some(vertices) ==> all_corners(entities_view(entities@), faces@) == Some(
            vertices@,
        ),
{
    let ghost views = entities_view(entities@);
    let mut vertices: Vec<u64> = Vec::new();
    let mut i: usize = 0;
    while i < faces.len()
        invariant
            i <= faces.len(),
            views == entities_view(entities@),
            indexes(index@, views),
            all_corners(views, faces@.take(i as int)) == Some(vertices@),
        decreases faces.len() - i,
    {
        assert(faces@.take(i + 1).drop_last() =~= faces@.take(i as int));
        assert(faces@.take(i + 1).last() == faces@[i as int]);
        match face_vertices(faces[i], entities, index) {
            Some(more) => {
                append_ids(&mut vertices, &more);
            },
            None => {
                proof {
                    lemma_all_corners_stop(views, faces@, i + 1);
                }
                return None;
            },
        }
        i = i + 1;
    }
    assert(faces@.take(faces@.len() as int) =~= faces@);
    Some(vertices)
}

pub(crate) fn find_all_placed(places: &HashMap<u64, u64>, vertices: &Vec<u64>) -> (out: bool)
    ensures
        out == all_placed(places@, vertices@),
{
    let mut i: usize = 0;
    while i < vertices.len()
        invariant
            i <= vertices.len(),
            forall|k: int| 0 <= k < i ==> places@.contains_key(#[trigger] vertices@[k]),
        decreases vertices.len() - i,
    {
        if !places.contains_key(&vertices[i]) {
            assert(!places@.contains_key(vertices@[i as int]));
            return false;
        }
        i = i + 1;
    }
    true
}

/// The vertices in a place.
pub open spec fn standing(places: Map<u64, u64>, vertices: Seq<u64>, place: u64) -> Seq<u64>
    decreases vertices.len(),
{
    if vertices.len() == 0 {
        Seq::empty()
    } else {
        let rest = standing(places, vertices.drop_last(), place);
        if places.contains_key(vertices.last()) && places[vertices.last()] == place {
            rest.push(vertices.last())
        } else {
            rest
        }
    }
}

/// The one vertex in the place that another vertex moves to.
pub open spec fn vertex_at(
    places: Map<u64, u64>,
    vertices: Seq<u64>,
    moved: Map<u64, u64>,
    vertex: u64,
) -> Result<u64, BodyError> {
    if !moved.contains_key(vertex) {
        Err(BodyError::NotMeasured)
    } else {
        let found = sorted_of(standing(places, vertices, moved[vertex]));
        if found.len() == 0 {
            Err(BodyError::NoVertex)
        } else if found.len() > 1 {
            Err(BodyError::AmbiguousVertex)
        } else {
            Ok(found[0])
        }
    }
}

pub(crate) fn find_vertex_at(
    places: &HashMap<u64, u64>,
    vertices: &Vec<u64>,
    moved: &HashMap<u64, u64>,
    vertex: u64,
) -> (out: Result<u64, BodyError>)
    ensures
        out == vertex_at(places@, vertices@, moved@, vertex),
{
    let place: u64 = match moved.get(&vertex) {
        Some(place) => *place,
        None => {
            return Err(BodyError::NotMeasured);
        },
    };
    let mut list: Vec<u64> = Vec::new();
    let mut i: usize = 0;
    assert(vertices@.take(0) =~= Seq::<u64>::empty());
    while i < vertices.len()
        invariant
            i <= vertices.len(),
            list@ == standing(places@, vertices@.take(i as int), place),
        decreases vertices.len() - i,
    {
        assert(vertices@.take(i + 1).drop_last() =~= vertices@.take(i as int));
        assert(vertices@.take(i + 1).last() == vertices@[i as int]);
        if let Some(at) = places.get(&vertices[i]) {
            if *at == place {
                list.push(vertices[i]);
            }
        }
        i = i + 1;
    }
    assert(vertices@.take(vertices@.len() as int) =~= vertices@);
    let found = sorted_set(&list);
    if found.len() == 0 {
        Err(BodyError::NoVertex)
    } else if found.len() > 1 {
        Err(BodyError::AmbiguousVertex)
    } else {
        Ok(found[0])
    }
}

} // verus!
