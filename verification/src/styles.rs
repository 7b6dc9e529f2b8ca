//! The styled items that are applied to entities.

use std::collections::HashMap;
use vstd::prelude::*;

use crate::ast::{entities_view, entity_id, EntityInstance, EntityView};
use crate::face_plan::{face_styles, lemma_styles_at, listed, styled, styled_assignments};

verus! {

broadcast use vstd::std_specs::hash::group_hash_axioms;

/// A styled item and the styles that it assigns.
#[derive(Debug)]
pub struct StyleRef {
    pub id: u64,
    pub assignments: Vec<u64>,
}

#[verifier::ext_equal]
pub struct StyleView {
    pub id: u64,
    pub assignments: Seq<u64>,
}

impl View for StyleRef {
    type V = StyleView;

    open spec fn view(&self) -> StyleView {
        StyleView { id: self.id, assignments: self.assignments@ }
    }
}

pub open spec fn styles_view(styles: Seq<StyleRef>) -> Seq<StyleView> {
    Seq::new(styles.len(), |i: int| styles[i]@)
}

/// The styled items at positions that assign something.
pub open spec fn filled(entities: Seq<EntityView>, at: Seq<u64>) -> Seq<StyleView>
    decreases at.len(),
{
    if at.len() == 0 {
        Seq::empty()
    } else {
        let rest = filled(entities, at.drop_last());
        let entity = entities[at.last() as int];
        let assignments = styled(entity)->Some_0.1;
        if assignments.len() > 0 {
            rest.push(StyleView { id: entity.id(), assignments })
        } else {
            rest
        }
    }
}

/// The styled items of a target that assign something.
pub open spec fn applied(entities: Seq<EntityView>, target: u64) -> Seq<StyleView> {
    filled(entities, face_styles(entities, target))
}

/// The styled items of a target that assign something.
pub fn applied_styles(
    entities: &Vec<EntityInstance>,
    table: &HashMap<u64, Vec<u64>>,
    target: u64,
) -> (out: Vec<StyleRef>)
    requires
        forall|t: u64| #[trigger]
            listed(table@, t) == face_styles(entities_view(entities@), t),
    ensures
        styles_view(out@) == applied(entities_view(entities@), target),
{
    let ghost views = entities_view(entities@);
    assert(listed(table@, target) == face_styles(views, target));
    let mut out: Vec<StyleRef> = Vec::new();
    assert(styles_view(out@) =~= Seq::empty());
    if let Some(at) = table.get(&target) {
        let n: usize = entities.len();
        let mut i: usize = 0;
        assert(at@.take(0) =~= Seq::empty());
        while i < at.len()
            invariant
                i <= at.len(),
                n == entities.len(),
                views == entities_view(entities@),
                at@ == face_styles(views, target),
                styles_view(out@) == filled(views, at@.take(i as int)),
            decreases at.len() - i,
        {
            proof {
                lemma_styles_at(views, target, views.len(), i as int);
            }
            let place: usize = at[i] as usize;
            assert(views[place as int] == entities@[place as int]@);
            let assignments = styled_assignments(&entities[place]);
            let ghost before = out@;
            if assignments.len() > 0 {
                let style = StyleRef { id: entity_id(&entities[place]), assignments };
                out.push(style);
                assert(styles_view(out@) =~= styles_view(before).push(style@));
            }
            i = i + 1;
            assert(at@.take(i as int).drop_last() =~= at@.take(i - 1));
        }
        assert(at@.take(at@.len() as int) =~= at@);
    }
    out
}

/// The styles that all of some faces have, each from one styled item alone.
pub open spec fn faces_style(entities: Seq<EntityView>, faces: Seq<u64>) -> Option<Seq<u64>>
    decreases faces.len(),
{
    if faces.len() == 0 {
        None
    } else {
        let styles = applied(entities, faces.last());
        if styles.len() != 1 {
            None
        } else if faces.len() == 1 {
            Some(styles[0].assignments)
        } else {
            match faces_style(entities, faces.drop_last()) {
                Some(shared) if shared == styles[0].assignments => Some(shared),
                _ => None,
            }
        }
    }
}

proof fn lemma_faces_style_stop(entities: Seq<EntityView>, faces: Seq<u64>, n: int)
    requires
        0 < n <= faces.len(),
        faces_style(entities, faces.take(n)) is None,
    ensures
        faces_style(entities, faces) is None,
    decreases faces.len(),
{
    if n < faces.len() {
        assert(faces.drop_last().take(n) =~= faces.take(n));
        lemma_faces_style_stop(entities, faces.drop_last(), n);
    } else {
        assert(faces.take(n) =~= faces);
    }
}

/// The styles that all of some faces have.
pub fn find_faces_style(
    entities: &Vec<EntityInstance>,
    table: &HashMap<u64, Vec<u64>>,
    faces: &Vec<u64>,
) -> (out: Option<Vec<u64>>)
    requires
        forall|t: u64| #[trigger]
            listed(table@, t) == face_styles(entities_view(entities@), t),
    ensures
        out is Some == faces_style(entities_view(entities@), faces@) is Some,
        out matches Some(style) ==> faces_style(entities_view(entities@), faces@) == Some(style@),
{
    let ghost views = entities_view(entities@);
    if faces.len() == 0 {
        return None;
    }
    let mut first = applied_styles(entities, table, faces[0]);
    assert(faces@.take(1).last() == faces@[0]);
    if first.len() != 1 {
        proof {
            assert(styles_view(first@).len() == first@.len());
            lemma_faces_style_stop(views, faces@, 1);
        }
        return None;
    }
    assert(styles_view(first@)[0] == first@[0]@);
    let shared = match first.pop() {
        Some(style) => style.assignments,
        None => Vec::new(),
    };
    let mut i: usize = 1;
    while i < faces.len()
        invariant
            1 <= i <= faces.len(),
            views == entities_view(entities@),
            forall|t: u64| #[trigger] listed(table@, t) == face_styles(views, t),
            faces_style(views, faces@.take(i as int)) == Some(shared@),
        decreases faces.len() - i,
    {
        let ghost upto = faces@.take(i + 1);
        assert(upto.drop_last() =~= faces@.take(i as int));
        assert(upto.last() == faces@[i as int]);
        let styles = applied_styles(entities, table, faces[i]);
        assert(styles_view(styles@).len() == styles@.len());
        let same = if styles.len() == 1 {
            assert(styles_view(styles@)[0] == styles@[0]@);
            crate::face_plan::same_ids(&shared, &styles[0].assignments)
        } else {
            false
        };
        if !same {
            proof {
                lemma_faces_style_stop(views, faces@, i + 1);
            }
            return None;
        }
        i = i + 1;
    }
    assert(faces@.take(faces@.len() as int) =~= faces@);
    Some(shared)
}

} // verus!
