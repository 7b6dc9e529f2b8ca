//! New entities that place instances of a representation.

use vstd::prelude::*;

use crate::ast::{
    entities_view, lemma_list_view, params_view, EntityInstance, EntityView, ParamView, Parameter,
};
use crate::face_coalesce::{ref_list_param, ref_param, ref_params};
use crate::graph::{entity_ref, push_simple, simple_entity};

verus! {

/// Where an instance stands: turned by quarters about the third axis and moved. The numbers are
/// kept as their shortest decimal texts.
#[derive(Debug)]
pub struct Place {
    pub quarter: u8,
    pub x: String,
    pub y: String,
    pub z: String,
}

#[verifier::ext_equal]
pub struct PlaceView {
    pub quarter: u8,
    pub x: Seq<char>,
    pub y: Seq<char>,
    pub z: Seq<char>,
}

impl View for Place {
    type V = PlaceView;

    open spec fn view(&self) -> PlaceView {
        PlaceView { quarter: self.quarter, x: self.x@, y: self.y@, z: self.z@ }
    }
}

impl Clone for Place {
    fn clone(&self) -> (out: Place)
        ensures
            out@ == self@,
    {
        Place {
            quarter: self.quarter,
            x: self.x.clone(),
            y: self.y.clone(),
            z: self.z.clone(),
        }
    }
}

pub open spec fn place_view(place: Option<Place>) -> Option<PlaceView> {
    match place {
        Some(place) => Some(place@),
        None => None,
    }
}

/// The id of the next new entity.
pub open spec fn fresh(added: Seq<EntityView>, last: u64) -> u64 {
    (last + added.len() + 1) as u64
}

/// There are ids left for some more entities.
pub open spec fn room(added: Seq<EntityView>, last: u64, more: int) -> bool {
    last + added.len() + more <= u64::MAX
}

/// Whether there are ids left for four entities for each of some instances, and some more.
pub fn has_room(count: usize, last: u64, instances: usize, more: u64) -> (out: bool)
    ensures
        out == (last + count + 4 * instances + more <= u64::MAX),
{
    let wanted: u128 = last as u128 + count as u128 + 4 * (instances as u128) + more as u128;
    wanted <= u64::MAX as u128
}

/// A triple of numbers under a type.
pub open spec fn triple(
    id: u64,
    name: Seq<char>,
    x: Seq<char>,
    y: Seq<char>,
    z: Seq<char>,
) -> EntityView {
    simple_entity(
        id,
        name,
        seq![
            ParamView::String(Seq::empty()),
            ParamView::List(seq![ParamView::Real(x), ParamView::Real(y), ParamView::Real(z)]),
        ],
    )
}

pub open spec fn axis_entity(id: u64, point: u64, axis: u64, direction: u64) -> EntityView {
    simple_entity(
        id,
        "AXIS2_PLACEMENT_3D"@,
        seq![
            ParamView::String(Seq::empty()),
            ref_param(point),
            ref_param(axis),
            ref_param(direction),
        ],
    )
}

/// The third axis, the four quarter directions, and the origin with its placement.
pub open spec fn with_frame(added: Seq<EntityView>, last: u64) -> Seq<EntityView> {
    let id = fresh(added, last);
    added.push(triple(id, "DIRECTION"@, "0"@, "0"@, "1"@)).push(
        triple((id + 1) as u64, "DIRECTION"@, "1"@, "0"@, "0"@),
    ).push(triple((id + 2) as u64, "DIRECTION"@, "0"@, "1"@, "0"@)).push(
        triple((id + 3) as u64, "DIRECTION"@, "-1"@, "0"@, "0"@),
    ).push(triple((id + 4) as u64, "DIRECTION"@, "0"@, "-1"@, "0"@)).push(
        triple((id + 5) as u64, "CARTESIAN_POINT"@, "0"@, "0"@, "0"@),
    ).push(axis_entity((id + 6) as u64, (id + 5) as u64, id, (id + 1) as u64))
}

/// A representation of one solid about the origin, and its map.
pub open spec fn with_source(
    added: Seq<EntityView>,
    last: u64,
    name: Seq<char>,
    solid: u64,
    frame: u64,
    context: u64,
) -> Seq<EntityView> {
    let id = fresh(added, last);
    let origin = (frame + 6) as u64;
    added.push(
        simple_entity(
            id,
            "ADVANCED_BREP_SHAPE_REPRESENTATION"@,
            seq![
                ParamView::String(name),
                ParamView::List(ref_params(seq![solid, origin])),
                ref_param(context),
            ],
        ),
    ).push(
        simple_entity(
            (id + 1) as u64,
            "REPRESENTATION_MAP"@,
            seq![ref_param(origin), ref_param(id)],
        ),
    )
}

/// The placement of an instance, where it does not stand at the origin.
pub open spec fn with_place(
    added: Seq<EntityView>,
    last: u64,
    frame: u64,
    place: Option<PlaceView>,
) -> Seq<EntityView> {
    let id = fresh(added, last);
    match place {
        None => added,
        Some(place) => added.push(
            triple(id, "CARTESIAN_POINT"@, place.x, place.y, place.z),
        ).push(
            axis_entity((id + 1) as u64, id, frame, (frame + 1 + place.quarter % 4) as u64),
        ),
    }
}

/// The id of the instance that is placed next.
pub open spec fn mapped_id(added: Seq<EntityView>, last: u64, place: Option<PlaceView>) -> u64 {
    match place {
        None => fresh(added, last),
        Some(_) => (fresh(added, last) + 2) as u64,
    }
}

/// An instance of a representation.
pub open spec fn with_mapped(
    added: Seq<EntityView>,
    last: u64,
    frame: u64,
    map: u64,
    place: Option<PlaceView>,
) -> Seq<EntityView> {
    let axis = match place {
        None => (frame + 6) as u64,
        Some(_) => (fresh(added, last) + 1) as u64,
    };
    with_place(added, last, frame, place).push(
        simple_entity(
            mapped_id(added, last, place),
            "MAPPED_ITEM"@,
            seq![ParamView::String(Seq::empty()), ref_param(map), ref_param(axis)],
        ),
    )
}

/// A styled item for an instance.
pub open spec fn with_style(
    added: Seq<EntityView>,
    last: u64,
    styles: Seq<u64>,
    target: u64,
) -> Seq<EntityView> {
    added.push(
        simple_entity(
            fresh(added, last),
            "STYLED_ITEM"@,
            seq![
                ParamView::String("NONE"@),
                ParamView::List(ref_params(styles)),
                ref_param(target),
            ],
        ),
    )
}

pub(crate) fn push_triple(
    added: &mut Vec<EntityInstance>,
    id: u64,
    name: &str,
    x: String,
    y: String,
    z: String,
)
    ensures
        entities_view(final(added)@) == entities_view(old(added)@).push(
            triple(id, name@, x@, y@, z@),
        ),
{
    let mut numbers: Vec<Parameter> = Vec::new();
    numbers.push(Parameter::Real(x));
    numbers.push(Parameter::Real(y));
    numbers.push(Parameter::Real(z));
    proof {
        lemma_list_view(numbers);
        assert(params_view(numbers@) =~= seq![
            ParamView::Real(x@),
            ParamView::Real(y@),
            ParamView::Real(z@),
        ]);
    }
    let mut params: Vec<Parameter> = Vec::new();
    params.push(Parameter::String(String::new()));
    params.push(Parameter::List(numbers));
    assert(params_view(params@) =~= seq![
        ParamView::String(Seq::empty()),
        ParamView::List(
            seq![ParamView::Real(x@), ParamView::Real(y@), ParamView::Real(z@)],
        ),
    ]);
    push_simple(added, id, name, params);
}

fn push_axis(added: &mut Vec<EntityInstance>, id: u64, point: u64, axis: u64, direction: u64)
    ensures
        entities_view(final(added)@) == entities_view(old(added)@).push(
            axis_entity(id, point, axis, direction),
        ),
{
    let mut params: Vec<Parameter> = Vec::new();
    params.push(Parameter::String(String::new()));
    params.push(entity_ref(point));
    params.push(entity_ref(axis));
    params.push(entity_ref(direction));
    assert(params_view(params@) =~= seq![
        ParamView::String(Seq::empty()),
        ref_param(point),
        ref_param(axis),
        ref_param(direction),
    ]);
    push_simple(added, id, "AXIS2_PLACEMENT_3D", params);
}

/// Appends the third axis, the four quarter directions, and the origin with its placement.
pub fn push_frame(added: &mut Vec<EntityInstance>, last: u64) -> (frame: u64)
    requires
        room(entities_view(old(added)@), last, 7),
    ensures
        frame == fresh(entities_view(old(added)@), last),
        entities_view(final(added)@) == with_frame(entities_view(old(added)@), last),
{
    let ghost start = entities_view(added@);
    let n: usize = added.len();
    assert(start.len() == n);
    let id: u64 = last + n as u64 + 1;
    push_triple(added, id, "DIRECTION", "0".to_owned(), "0".to_owned(), "1".to_owned());
    push_triple(added, id + 1, "DIRECTION", "1".to_owned(), "0".to_owned(), "0".to_owned());
    push_triple(added, id + 2, "DIRECTION", "0".to_owned(), "1".to_owned(), "0".to_owned());
    push_triple(added, id + 3, "DIRECTION", "-1".to_owned(), "0".to_owned(), "0".to_owned());
    push_triple(added, id + 4, "DIRECTION", "0".to_owned(), "-1".to_owned(), "0".to_owned());
    push_triple(added, id + 5, "CARTESIAN_POINT", "0".to_owned(), "0".to_owned(), "0".to_owned());
    push_axis(added, id + 6, id + 5, id, id + 1);
    id
}

/// Appends a representation of one solid about the origin, and its map.
pub fn push_source(
    added: &mut Vec<EntityInstance>,
    last: u64,
    name: &str,
    solid: u64,
    frame: u64,
    context: u64,
) -> (map: u64)
    requires
        room(entities_view(old(added)@), last, 2),
        frame <= u64::MAX - 6,
    ensures
        map == (fresh(entities_view(old(added)@), last) + 1) as u64,
        entities_view(final(added)@) == with_source(
            entities_view(old(added)@),
            last,
            name@,
            solid,
            frame,
            context,
        ),
{
    let ghost start = entities_view(added@);
    let n: usize = added.len();
    assert(start.len() == n);
    let id: u64 = last + n as u64 + 1;
    let origin: u64 = frame + 6;
    let mut items: Vec<u64> = Vec::new();
    items.push(solid);
    items.push(origin);
    assert(items@ =~= seq![solid, origin]);
    let mut rep: Vec<Parameter> = Vec::new();
    rep.push(Parameter::String(name.to_owned()));
    rep.push(ref_list_param(&items));
    rep.push(entity_ref(context));
    assert(params_view(rep@) =~= seq![
        ParamView::String(name@),
        ParamView::List(ref_params(seq![solid, origin])),
        ref_param(context),
    ]);
    push_simple(added, id, "ADVANCED_BREP_SHAPE_REPRESENTATION", rep);
    let mut map: Vec<Parameter> = Vec::new();
    map.push(entity_ref(origin));
    map.push(entity_ref(id));
    assert(params_view(map@) =~= seq![ref_param(origin), ref_param(id)]);
    push_simple(added, id + 1, "REPRESENTATION_MAP", map);
    id + 1
}

/// Appends an instance of a representation.
pub fn push_mapped(
    added: &mut Vec<EntityInstance>,
    last: u64,
    frame: u64,
    map: u64,
    place: &Option<Place>,
) -> (mapped: u64)
    requires
        room(entities_view(old(added)@), last, 3),
        frame <= u64::MAX - 6,
    ensures
        mapped == mapped_id(entities_view(old(added)@), last, place_view(*place)),
        entities_view(final(added)@) == with_mapped(
            entities_view(old(added)@),
            last,
            frame,
            map,
            place_view(*place),
        ),
{
    let ghost start = entities_view(added@);
    let n: usize = added.len();
    assert(start.len() == n);
    let id: u64 = last + n as u64 + 1;
    let (axis, mapped): (u64, u64) = match place {
        None => (frame + 6, id),
        Some(place) => {
            push_triple(
                added,
                id,
                "CARTESIAN_POINT",
                place.x.clone(),
                place.y.clone(),
                place.z.clone(),
            );
            let turn: u64 = (place.quarter % 4) as u64;
            push_axis(added, id + 1, id, frame, frame + 1 + turn);
            (id + 1, id + 2)
        },
    };
    let mut params: Vec<Parameter> = Vec::new();
    params.push(Parameter::String(String::new()));
    params.push(entity_ref(map));
    params.push(entity_ref(axis));
    assert(params_view(params@) =~= seq![
        ParamView::String(Seq::empty()),
        ref_param(map),
        ref_param(axis),
    ]);
    push_simple(added, mapped, "MAPPED_ITEM", params);
    mapped
}

/// Appends a styled item for an instance.
pub fn push_style(
    added: &mut Vec<EntityInstance>,
    last: u64,
    styles: &Vec<u64>,
    target: u64,
) -> (id: u64)
    requires
        room(entities_view(old(added)@), last, 1),
    ensures
        id == fresh(entities_view(old(added)@), last),
        entities_view(final(added)@) == with_style(
            entities_view(old(added)@),
            last,
            styles@,
            target,
        ),
{
    let ghost start = entities_view(added@);
    let n: usize = added.len();
    assert(start.len() == n);
    let id: u64 = last + n as u64 + 1;
    let mut params: Vec<Parameter> = Vec::new();
    params.push(Parameter::String("NONE".to_owned()));
    params.push(ref_list_param(styles));
    params.push(entity_ref(target));
    assert(params_view(params@) =~= seq![
        ParamView::String("NONE"@),
        ParamView::List(ref_params(styles@)),
        ref_param(target),
    ]);
    push_simple(added, id, "STYLED_ITEM", params);
    id
}

} // verus!
