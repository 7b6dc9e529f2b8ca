//! Placeholder names.

use vstd::prelude::*;

use crate::ast::{
    entities_view, lemma_list_view, params_view, records_view, EntityInstance, EntityView,
    ParamView, Parameter, Record, RecordView, clone_params,
};
use crate::text::same_text;

verus! {

/// The types whose first parameter is a name that nothing depends on.
pub open spec fn placeholder_type(name: Seq<char>) -> bool {
    ||| name == "ADVANCED_FACE"@
    ||| name == "AXIS2_PLACEMENT_3D"@
    ||| name == "B_SPLINE_CURVE_WITH_KNOTS"@
    ||| name == "B_SPLINE_SURFACE_WITH_KNOTS"@
    ||| name == "CARTESIAN_POINT"@
    ||| name == "CIRCLE"@
    ||| name == "CLOSED_SHELL"@
    ||| name == "CONICAL_SURFACE"@
    ||| name == "CYLINDRICAL_SURFACE"@
    ||| name == "DIRECTION"@
    ||| name == "EDGE_CURVE"@
    ||| name == "EDGE_LOOP"@
    ||| name == "FACE_BOUND"@
    ||| name == "FACE_OUTER_BOUND"@
    ||| name == "LINE"@
    ||| name == "MANIFOLD_SOLID_BREP"@
    ||| name == "ORIENTED_EDGE"@
    ||| name == "PLANE"@
    ||| name == "SPHERICAL_SURFACE"@
    ||| name == "STYLED_ITEM"@
    ||| name == "TOROIDAL_SURFACE"@
    ||| name == "VECTOR"@
    ||| name == "VERTEX_POINT"@
}

/// Whether a record has the placeholder `NONE` for its name.
pub open spec fn has_placeholder(record: RecordView) -> bool {
    &&& placeholder_type(record.name)
    &&& record.parameter matches ParamView::List(items)
    &&& items.len() > 0
    &&& items[0] == ParamView::String("NONE"@)
}

/// A record with an empty name in place of a placeholder.
pub open spec fn minified_record(record: RecordView) -> RecordView {
    if has_placeholder(record) {
        RecordView {
            name: record.name,
            parameter: ParamView::List(
                record.parameter->List_0.update(0, ParamView::String(Seq::empty())),
            ),
        }
    } else {
        record
    }
}

pub open spec fn minified_entity(entity: EntityView) -> EntityView {
    match entity {
        EntityView::Simple { id, record } => EntityView::Simple {
            id,
            record: minified_record(record),
        },
        EntityView::Complex { id, subsuper } => EntityView::Complex {
            id,
            subsuper: Seq::new(subsuper.len(), |i: int| minified_record(subsuper[i])),
        },
    }
}

/// The entities with empty names in place of placeholders.
pub open spec fn minified(entities: Seq<EntityView>) -> Seq<EntityView> {
    Seq::new(entities.len(), |i: int| minified_entity(entities[i]))
}

/// How many records have a placeholder.
pub open spec fn placeholders(records: Seq<RecordView>) -> nat
    decreases records.len(),
{
    if records.len() == 0 {
        0
    } else {
        placeholders(records.drop_last()) + (if has_placeholder(records.last()) {
            1nat
        } else {
            0
        })
    }
}

pub open spec fn all_placeholders(entities: Seq<EntityView>) -> nat
    decreases entities.len(),
{
    if entities.len() == 0 {
        0
    } else {
        all_placeholders(entities.drop_last()) + placeholders(entities.last().records())
    }
}

/// A count that stops at the largest number.
pub open spec fn capped(n: nat) -> usize {
    if n > usize::MAX {
        usize::MAX
    } else {
        n as usize
    }
}

fn is_placeholder_type(name: &str) -> (out: bool)
    ensures
        out == placeholder_type(name@),
{
    same_text(name, "ADVANCED_FACE")
        || same_text(name, "AXIS2_PLACEMENT_3D")
        || same_text(name, "B_SPLINE_CURVE_WITH_KNOTS")
        || same_text(name, "B_SPLINE_SURFACE_WITH_KNOTS")
        || same_text(name, "CARTESIAN_POINT")
        || same_text(name, "CIRCLE")
        || same_text(name, "CLOSED_SHELL")
        || same_text(name, "CONICAL_SURFACE")
        || same_text(name, "CYLINDRICAL_SURFACE")
        || same_text(name, "DIRECTION")
        || same_text(name, "EDGE_CURVE")
        || same_text(name, "EDGE_LOOP")
        || same_text(name, "FACE_BOUND")
        || same_text(name, "FACE_OUTER_BOUND")
        || same_text(name, "LINE")
        || same_text(name, "MANIFOLD_SOLID_BREP")
        || same_text(name, "ORIENTED_EDGE")
        || same_text(name, "PLANE")
        || same_text(name, "SPHERICAL_SURFACE")
        || same_text(name, "STYLED_ITEM")
        || same_text(name, "TOROIDAL_SURFACE")
        || same_text(name, "VECTOR")
        || same_text(name, "VERTEX_POINT")
}

fn is_none_string(param: &Parameter) -> (out: bool)
    ensures
        out == (param@ == ParamView::String("NONE"@)),
{
    match param {
        Parameter::String(name) => same_text(name.as_str(), "NONE"),
        _ => false,
    }
}

/// The record with an empty name in place of a placeholder, and whether it had one.
pub fn minify_placeholder_record_name(record: &Record) -> (out: (Record, bool))
    ensures
        out.0@ == minified_record(record@),
        out.1 == has_placeholder(record@),
{
    if is_placeholder_type(record.name.as_str()) {
        if let Parameter::List(items) = &record.parameter {
            proof {
                lemma_list_view(*items);
            }
            if items.len() > 0 && is_none_string(&items[0]) {
                let mut copy = clone_params(items);
                let ghost before = copy@;
                copy.set(0, Parameter::String(String::new()));
                proof {
                    lemma_list_view(copy);
                    assert(copy@[0]@ == ParamView::String(Seq::empty()));
                    assert(params_view(before).len() == params_view(items@).len());
                    assert forall|i: int| 0 < i < items@.len() implies (#[trigger] copy@[i])@
                        == items@[i]@ by {
                        assert(copy@[i] == before[i]);
                        assert(params_view(before)[i] == params_view(items@)[i]);
                    }
                    assert(params_view(copy@) =~= params_view(items@).update(
                        0,
                        ParamView::String(Seq::empty()),
                    ));
                }
                return (
                    Record { name: record.name.clone(), parameter: Parameter::List(copy) },
                    true,
                );
            }
        }
    }
    (record.clone(), false)
}

/// Empties every placeholder name, and returns how many there were.
pub fn minify_placeholder_names(entities: &mut Vec<EntityInstance>) -> (changed: usize)
    ensures
        entities_view(final(entities)@) == minified(entities_view(old(entities)@)),
        changed == capped(all_placeholders(entities_view(old(entities)@))),
{
    let ghost views = entities_view(entities@);
    let mut changed: usize = 0;
    let mut out: Vec<EntityInstance> = Vec::new();
    let mut i: usize = 0;
    assert(views.take(0) =~= Seq::empty());
    while i < entities.len()
        invariant
            i <= entities.len(),
            out.len() == i,
            views == entities_view(entities@),
            *entities == *old(entities),
            changed == capped(all_placeholders(views.take(i as int))),
            forall|j: int| 0 <= j < i ==> (#[trigger] out@[j])@ == minified_entity(views[j]),
        decreases entities.len() - i,
    {
        let entity = &entities[i];
        assert(views[i as int] == entity@);
        match entity {
            EntityInstance::Simple { id, record } => {
                let (record, had) = minify_placeholder_record_name(record);
                proof {
                    reveal_with_fuel(placeholders, 2);
                    assert(entity@.records().drop_last() =~= Seq::empty());
                }
                if had {
                    changed = changed.saturating_add(1);
                }
                out.push(EntityInstance::Simple { id: *id, record });
            },
            EntityInstance::Complex { id, subsuper } => {
                let ghost records = records_view(subsuper@);
                let ghost start = all_placeholders(views.take(i as int));
                let mut copy: Vec<Record> = Vec::new();
                let mut k: usize = 0;
                assert(records.take(0) =~= Seq::empty());
                while k < subsuper.len()
                    invariant
                        k <= subsuper.len(),
                        copy.len() == k,
                        records == records_view(subsuper@),
                        changed == capped(start + placeholders(records.take(k as int))),
                        forall|j: int|
                            0 <= j < k ==> (#[trigger] copy@[j])@ == minified_record(records[j]),
                    decreases subsuper.len() - k,
                {
                    assert(records[k as int] == subsuper@[k as int]@);
                    let (record, had) = minify_placeholder_record_name(&subsuper[k]);
                    if had {
                        changed = changed.saturating_add(1);
                    }
                    copy.push(record);
                    k = k + 1;
                    assert(records.take(k as int).drop_last() =~= records.take(k - 1));
                }
                assert(records.take(records.len() as int) =~= records);
                let ghost last = EntityInstance::Complex { id: *id, subsuper: copy };
                assert(last@->subsuper =~= minified_entity(entity@)->subsuper);
                out.push(EntityInstance::Complex { id: *id, subsuper: copy });
            },
        }
        i = i + 1;
        assert(views.take(i as int).drop_last() =~= views.take(i - 1));
    }
    assert(views.take(views.len() as int) =~= views);
    *entities = out;
    assert(entities_view(entities@) =~= minified(views));
    changed
}

} // verus!
