//! What periodic bodies, sheets and instances keep of what was measured.

use vstd::prelude::*;

use crate::ast::EntityView;
use crate::body_detection::{
    body_of, faces_of, family_faces, family_view, items_of, put, repeated, FaceMeasure, RowFit,
    SolidMeasure,
};
use crate::face_laws::is_styled;
use crate::formed_sheet::{paired, pairs_at, planes_at, SheetCylinderPair};
use crate::instance_laws::{
    has_frame, lemma_has_frame_later, lemma_mapped, lemma_styled, maps_solid,
};
use crate::instances::{instance_ids, with_instances};
use crate::lookup::{finds_as, lemma_new_found, lemma_ref_params, numbered_from};
use crate::parameters::{canonical, counts_in_axis, opposite};
use crate::placements::{mapped_id, room, with_mapped, PlaceView};
use crate::sets::sorted_of;

verus! {

/// Whether a list is in the order of its keys.
pub open spec fn keys_rise(list: Seq<(u64, u64)>) -> bool {
    forall|i: int, j: int|
        #![trigger list[i], list[j]]
        0 <= i < j < list.len() ==> list[i].0 <= list[j].0
}

proof fn lemma_put(sorted: Seq<(u64, u64)>, item: (u64, u64))
    requires
        keys_rise(sorted),
    ensures
        keys_rise(put(sorted, item)),
        put(sorted, item).len() == sorted.len() + 1,
        forall|x: (u64, u64)| #[trigger]
            put(sorted, item).contains(x) == (sorted.contains(x) || x == item),
    decreases sorted.len(),
{
    let out = put(sorted, item);
    if sorted.len() == 0 || sorted.last().0 <= item.0 {
        assert(out[sorted.len() as int] == item);
        assert forall|i: int, j: int|
            #![trigger out[i], out[j]]
            0 <= i < j < out.len() implies out[i].0 <= out[j].0 by {
            if j == sorted.len() {
                let last = sorted.len() - 1;
                assert(sorted[last] == sorted.last());
                if i < last {
                    assert(sorted[i].0 <= sorted[last].0);
                }
            } else {
                assert(sorted[i].0 <= sorted[j].0);
            }
        }
        assert forall|x: (u64, u64)| #[trigger] out.contains(x) == (sorted.contains(x) || x
            == item) by {
            if sorted.contains(x) {
                let k = choose|k: int| 0 <= k < sorted.len() && sorted[k] == x;
                assert(out[k] == x);
            }
            if out.contains(x) {
                let k = choose|k: int| 0 <= k < out.len() && out[k] == x;
                if k < sorted.len() {
                    assert(sorted[k] == x);
                }
            }
        }
    } else {
        let front = sorted.drop_last();
        let last = sorted.last();
        assert(sorted[sorted.len() - 1] == last);
        assert forall|i: int, j: int|
            #![trigger front[i], front[j]]
            0 <= i < j < front.len() implies front[i].0 <= front[j].0 by {
            assert(sorted[i].0 <= sorted[j].0);
        }
        lemma_put(front, item);
        let rest = put(front, item);
        assert(out[rest.len() as int] == last);
        assert forall|i: int, j: int|
            #![trigger out[i], out[j]]
            0 <= i < j < out.len() implies out[i].0 <= out[j].0 by {
            if j == rest.len() {
                assert(rest.contains(rest[i]));
                if rest[i] != item {
                    let k = choose|k: int| 0 <= k < front.len() && front[k] == rest[i];
                    assert(sorted[k].0 <= sorted[sorted.len() - 1].0);
                }
            } else {
                assert(rest[i].0 <= rest[j].0);
            }
        }
        assert forall|x: (u64, u64)| #[trigger] out.contains(x) == (sorted.contains(x) || x
            == item) by {
            if sorted.contains(x) {
                let k = choose|k: int| 0 <= k < sorted.len() && sorted[k] == x;
                if k < front.len() {
                    assert(front[k] == x);
                    assert(rest.contains(x));
                }
            }
            if front.contains(x) {
                let k = choose|k: int| 0 <= k < front.len() && front[k] == x;
                assert(sorted[k] == x);
            }
            if x == item {
                assert(rest.contains(x));
            }
            if rest.contains(x) {
                let k = choose|k: int| 0 <= k < rest.len() && rest[k] == x;
                assert(out[k] == x);
            }
            if out.contains(x) {
                let k = choose|k: int| 0 <= k < out.len() && out[k] == x;
                if k < rest.len() {
                    assert(rest[k] == x);
                    assert(rest.contains(x));
                }
            }
        }
    }
}

proof fn lemma_family_faces(
    measures: Map<u64, FaceMeasure>,
    faces: Seq<u64>,
    family: u64,
    n: nat,
    x: (u64, u64),
)
    requires
        n <= faces.len(),
    ensures
        keys_rise(family_faces(measures, faces, family, n)),
        family_faces(measures, faces, family, n).contains(x) == (measures.contains_key(x.1)
            && measures[x.1].family == family && measures[x.1].place == x.0 && exists|k: int|
            0 <= k < n && #[trigger] faces[k] == x.1),
    decreases n,
{
    if n > 0 {
        let face = faces[n - 1];
        let before = family_faces(measures, faces, family, (n - 1) as nat);
        lemma_family_faces(measures, faces, family, (n - 1) as nat, x);
        if measures.contains_key(face) && measures[face].family == family {
            lemma_put(before, (measures[face].place, face));
            assert(put(before, (measures[face].place, face)).contains(x) == (before.contains(x) || x
                == (measures[face].place, face)));
        }
    }
}

/// A family of faces lists the faces of the solid that are of it, and no others, in the order of
/// their places along the row.
pub proof fn law_family_lists_faces_along_the_row(
    measure: SolidMeasure,
    faces: Seq<u64>,
    family: u64,
    face: u64,
)
    ensures
        ({
            let listed = family_view(measure, faces, family).face_ids;
            &&& listed.contains(face) == (faces.contains(face) && measure.faces@.contains_key(face)
                && measure.faces@[face].family == family)
            &&& forall|i: int, j: int|
                #![trigger listed[i], listed[j]]
                0 <= i < j < listed.len() ==> measure.faces@[listed[i]].place
                    <= measure.faces@[listed[j]].place
        }),
{
    let list = family_faces(measure.faces@, faces, family, faces.len());
    let listed = family_view(measure, faces, family).face_ids;
    let own = (measure.faces@[face].place, face);
    lemma_family_faces(measure.faces@, faces, family, faces.len(), own);
    if listed.contains(face) {
        let k = choose|k: int| 0 <= k < listed.len() && listed[k] == face;
        assert(list.contains(list[k]));
        lemma_family_faces(measure.faces@, faces, family, faces.len(), list[k]);
    }
    if list.contains(own) {
        let k = choose|k: int| 0 <= k < list.len() && list[k] == own;
        assert(listed[k] == face);
    }
    if faces.contains(face) {
        let k = choose|k: int| 0 <= k < faces.len() && faces[k] == face;
        assert(faces[k] == face);
    }
    assert forall|i: int, j: int|
        #![trigger listed[i], listed[j]]
        0 <= i < j < listed.len() implies measure.faces@[listed[i]].place
        <= measure.faces@[listed[j]].place by {
        assert(list.contains(list[i]));
        assert(list.contains(list[j]));
        lemma_family_faces(measure.faces@, faces, family, faces.len(), list[i]);
        lemma_family_faces(measure.faces@, faces, family, faces.len(), list[j]);
        assert(list[i].0 <= list[j].0);
    }
}

proof fn lemma_repeated(
    measure: SolidMeasure,
    faces: Seq<u64>,
    sites: usize,
    n: nat,
    x: (u64, u64),
)
    requires
        n <= faces.len(),
    ensures
        keys_rise(repeated(measure, faces, sites, n)),
        repeated(measure, faces, sites, n).contains(x) ==> family_view(
            measure,
            faces,
            x.1,
        ).face_ids.len() == sites && measure.families@[x.1].regular,
    decreases n,
{
    if n > 0 {
        let before = repeated(measure, faces, sites, (n - 1) as nat);
        lemma_repeated(measure, faces, sites, (n - 1) as nat, x);
        let family = measure.faces@[faces[n - 1]].family;
        let item = (measure.families@[family].rank, family);
        lemma_put(before, item);
        assert(put(before, item).contains(x) == (before.contains(x) || x == item));
    }
}

/// A periodic body has the axis and the pitch of its row. Each of its families has one face at
/// each site, and there are as many repeating faces as sites times those of one site.
pub proof fn law_body_has_its_faces_at_each_site(
    solid: u64,
    faces: Seq<u64>,
    sites: usize,
    rows: Seq<usize>,
    fit: RowFit,
    measure: SolidMeasure,
    i: int,
)
    requires
        faces.len() <= usize::MAX,
    ensures
        body_of(solid, faces, sites, rows, fit, measure) matches Some(body) ==> {
            let families = items_of(repeated(measure, faces, sites, faces.len()));
            let repeating = sorted_of(faces_of(measure.faces@, faces, families));
            &&& body.solid_id == solid
            &&& body.axis == fit.axis
            &&& body.pitch == fit.pitch
            &&& body.sites == sites
            &&& body.coupled_instance_patterns == rows
            &&& body.total_faces == faces.len()
            &&& 0 <= i < body.repeat_face_families.len()
                ==> body.repeat_face_families[i].face_ids.len() == sites
            &&& repeating.len() <= usize::MAX ==> body.faces_per_site * sites == body.repeat_faces
                && body.repeat_faces == repeating.len()
        },
{
    if let Some(body) = body_of(solid, faces, sites, rows, fit, measure) {
        let list = repeated(measure, faces, sites, faces.len());
        let families = items_of(list);
        let repeating = sorted_of(faces_of(measure.faces@, faces, families));
        if 0 <= i < body.repeat_face_families.len() {
            assert(list.contains(list[i]));
            lemma_repeated(measure, faces, sites, faces.len(), list[i]);
        }
        let n = repeating.len() as int;
        let s = sites as int;
        assert(n % s == 0 && s > 0 ==> (n / s) * s == n && n / s <= n) by (nonlinear_arith)
            requires
                n >= 0,
        ;
    }
}

/// Whether a part of an axis is the first that counts.
pub open spec fn counts_first(axis: Seq<u64>, i: int) -> bool {
    &&& counts_in_axis(axis[i])
    &&& forall|j: int| 0 <= j < i ==> !counts_in_axis(#[trigger] axis[j])
}

/// An axis keeps its parts, all of them with their signs or all of them with the other ones, and
/// the first part that counts has no sign.
pub proof fn law_axis_points_forward(axis: [u64; 3], i: int)
    requires
        0 <= i < 3,
        counts_first(axis@, i),
    ensures
        counts_first(canonical(axis), i),
        canonical(axis)[i] < 0x8000_0000_0000_0000,
        canonical(axis) == axis@ || canonical(axis) == axis@.map_values(|bits: u64| opposite(bits)),
{
    assert(i == 0 || i == 1 || i == 2);
    if i >= 1 {
        assert(!counts_in_axis(axis@[0]));
    }
    if i >= 2 {
        assert(!counts_in_axis(axis@[1]));
    }
    let turned = seq![opposite(axis@[0]), opposite(axis@[1]), opposite(axis@[2])];
    assert(turned =~= axis@.map_values(|bits: u64| opposite(bits)));
    assert forall|j: int| 0 <= j < i implies !counts_in_axis(#[trigger] canonical(axis)[j]) by {
        assert(!counts_in_axis(axis@[j]));
    }
}

/// The pairs that speak for a thickness are those at this distance, in their order.
pub proof fn law_pairs_are_at_their_distance(pairs: Seq<SheetCylinderPair>, ticks: i64)
    ensures
        pairs_at(pairs, ticks) == pairs.filter(|pair: SheetCylinderPair| pair.ticks == ticks),
    decreases pairs.len(),
{
    reveal(Seq::filter);
    if pairs.len() > 0 {
        law_pairs_are_at_their_distance(pairs.drop_last(), ticks);
    }
}

/// As many planes speak for a thickness as stand at this distance.
pub proof fn law_planes_are_counted(separations: Seq<i64>, ticks: i64)
    ensures
        planes_at(separations, ticks) == separations.filter(|t: i64| t == ticks).len(),
    decreases separations.len(),
{
    reveal(Seq::filter);
    if separations.len() > 0 {
        law_planes_are_counted(separations.drop_last(), ticks);
    }
}

/// A face is one of a pair where it is the inner or the outer one.
pub proof fn law_paired_faces_are_of_pairs(pairs: Seq<SheetCylinderPair>, face: u64)
    ensures
        paired(pairs).contains(face) == exists|i: int|
            0 <= i < pairs.len() && ((#[trigger] pairs[i]).inner_face_id == face
                || pairs[i].outer_face_id == face),
    decreases pairs.len(),
{
    if pairs.len() > 0 {
        let front = pairs.drop_last();
        let last = pairs.last();
        law_paired_faces_are_of_pairs(front, face);
        let rest = paired(front);
        let all = paired(pairs);
        assert(all[rest.len() as int] == last.inner_face_id);
        assert(all[rest.len() + 1int] == last.outer_face_id);
        assert(pairs[pairs.len() - 1] == last);
        assert forall|i: int| 0 <= i < front.len() implies #[trigger] front[i] == pairs[i] by {}
        if rest.contains(face) {
            let k = choose|k: int| 0 <= k < rest.len() && rest[k] == face;
            assert(all[k] == face);
            let i = choose|i: int|
                0 <= i < front.len() && ((#[trigger] front[i]).inner_face_id == face
                    || front[i].outer_face_id == face);
            assert(pairs[i] == front[i]);
        }
        if all.contains(face) {
            let k = choose|k: int| 0 <= k < all.len() && all[k] == face;
            if k < rest.len() {
                assert(rest[k] == face);
            }
        }
        if exists|i: int|
            0 <= i < pairs.len() && ((#[trigger] pairs[i]).inner_face_id == face
                || pairs[i].outer_face_id == face) {
            let i = choose|i: int|
                0 <= i < pairs.len() && ((#[trigger] pairs[i]).inner_face_id == face
                    || pairs[i].outer_face_id == face);
            if i < front.len() {
                assert(front[i] == pairs[i]);
            }
        }
    }
}

/// Whether the first instances of a group have the style of the group.
pub open spec fn have_style(
    entities: Seq<EntityView>,
    instances: Seq<u64>,
    style: Seq<u64>,
) -> bool {
    forall|i: int|
        0 <= i < instances.len() ==> is_styled(
            entities,
            (#[trigger] instances[i] + 1) as u64,
            style,
            instances[i],
        )
}

/// Every instance of a group is followed by a styled item that gives it the styles of the group.
pub proof fn law_instances_have_the_style_of_their_group(
    added: Seq<EntityView>,
    last: u64,
    frame: u64,
    map: u64,
    solid: u64,
    context: u64,
    group: Seq<(u64, Option<PlaceView>)>,
    style: Seq<u64>,
    n: nat,
)
    requires
        numbered_from(added, last),
        room(added, last, 4 * n as int),
        has_frame(added, frame),
        maps_solid(added, map, solid, context),
        n <= group.len(),
    ensures
        ({
            let all = with_instances(added, last, frame, map, group, style, n);
            let ids = instance_ids(added, last, frame, map, group, style, n);
            &&& numbered_from(all, last)
            &&& all.len() <= added.len() + 4 * n
            &&& finds_as(all, added)
            &&& ids.len() == n
            &&& have_style(all, ids, style)
        }),
    decreases n,
{
    if n > 0 {
        let m = (n - 1) as nat;
        law_instances_have_the_style_of_their_group(
            added,
            last,
            frame,
            map,
            solid,
            context,
            group,
            style,
            m,
        );
        let before = with_instances(added, last, frame, map, group, style, m);
        let fewer = instance_ids(added, last, frame, map, group, style, m);
        let place = group[n - 1].1;
        let own = mapped_id(before, last, place);
        let placed = with_mapped(before, last, frame, map, place);
        let all = with_instances(added, last, frame, map, group, style, n);
        let ids = instance_ids(added, last, frame, map, group, style, n);
        lemma_has_frame_later(added, before, frame);
        assert(maps_solid(before, map, solid, context));
        let placement = lemma_mapped(before, last, frame, map, solid, context, place);
        lemma_styled(placed, last, style, own);
        lemma_new_found(all, last, placed.len() as int);
        lemma_ref_params(style);
        assert forall|i: int| 0 <= i < ids.len() implies is_styled(
            all,
            (#[trigger] ids[i] + 1) as u64,
            style,
            ids[i],
        ) by {
            if i < m {
                assert(ids[i] == fewer[i]);
                assert(is_styled(before, (fewer[i] + 1) as u64, style, fewer[i]));
            }
        }
    }
}

} // verus!
