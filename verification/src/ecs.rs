use vstd::prelude::*;

verus! {

/// Identity of an entity in the host's data store.
///
/// Two entities are equal only if both `id` and `generation` match: a freed
/// slot reused with a higher generation is a distinct entity.
#[derive(Debug, Clone, Copy, PartialEq, Eq, Structural)]
pub struct Entity {
    pub id: u32,
    pub generation: u32,
}

/// A self-describing value tree standing for one component value fetched
/// from the store.
///
/// This is a small closed model, not full reflection: struct-shaped values
/// become `FieldMap`, enum-shaped values become `TaggedVariant`, and
/// anything else (scalars included) becomes `Unsupported`.
#[derive(Debug, PartialEq, Eq)]
pub enum Component {
    Unsupported,
    FieldMap(Vec<(String, Component)>),
    TaggedVariant(String, Box<Component>),
}

/// Mathematical model of a [`Component`] tree: the same shape with
/// `String` and `Vec` replaced by their sequence abstractions, so that
/// equality of models is structural equality of the trees.
pub enum ComponentModel {
    Unsupported,
    FieldMap(Seq<(Seq<char>, ComponentModel)>),
    TaggedVariant(Seq<char>, Box<ComponentModel>),
}

/// The model of a component tree.
pub open spec fn component_model(c: Component) -> ComponentModel
    decreases c,
{
    match c {
        Component::Unsupported => ComponentModel::Unsupported,
        Component::FieldMap(fields) => ComponentModel::FieldMap(field_models(fields@)),
        Component::TaggedVariant(name, payload) => ComponentModel::TaggedVariant(
            name@,
            Box::new(component_model(*payload)),
        ),
    }
}

/// The models of a sequence of named fields, in order.
pub open spec fn field_models(fields: Seq<(String, Component)>) -> Seq<(Seq<char>, ComponentModel)>
    decreases fields,
{
    if fields.len() == 0 {
        Seq::empty()
    } else {
        seq![(fields[0].0@, component_model(fields[0].1))] + field_models(fields.drop_first())
    }
}

/// `field_models` maps index-wise: it preserves length and models each
/// field in place.
pub proof fn lemma_field_models_index(fields: Seq<(String, Component)>)
    ensures
        field_models(fields).len() == fields.len(),
        forall|i: int|
            0 <= i < fields.len() ==> #[trigger] field_models(fields)[i] == (
                fields[i].0@,
                component_model(fields[i].1),
            ),
    decreases fields,
{
    if fields.len() > 0 {
        lemma_field_models_index(fields.drop_first());
        assert forall|i: int| 0 <= i < fields.len() implies #[trigger] field_models(fields)[i] == (
            fields[i].0@,
            component_model(fields[i].1),
        ) by {
            if i > 0 {
                assert(fields.drop_first()[i - 1] == fields[i]);
            }
        }
    }
}

/// Deep-copies a component tree; the copy has the same model.
#[verifier::loop_isolation(false)]
pub fn clone_component(c: &Component) -> (r: Component)
    ensures
        component_model(r) == component_model(*c),
    decreases *c,
{
    match c {
        Component::Unsupported => Component::Unsupported,
        Component::FieldMap(fields) => {
            let mut copy: Vec<(String, Component)> = Vec::new();
            let mut idx: usize = 0;
            proof {
                lemma_field_models_index(fields@);
                assert(field_models(copy@) =~= field_models(fields@).take(0)) by {
                    lemma_field_models_index(copy@);
                }
            }
            while idx < fields.len()
                invariant
                    idx <= fields@.len(),
                    copy@.len() == idx,
                    forall|t: int|
                        0 <= t < idx ==> (#[trigger] copy@[t]).0@ == fields@[t].0@
                            && component_model(copy@[t].1) == component_model(fields@[t].1),
                decreases fields@.len() - idx,
            {
                proof {
                    assert(decreases_to!(*c => fields@[idx as int].1)) by {
                        assert(decreases_to!(*c => c->FieldMap_0));
                        assert(c->FieldMap_0 == *fields);
                        assert(decreases_to!(*fields => fields@));
                        assert(decreases_to!(fields@ => fields@[idx as int]));
                        assert(decreases_to!(fields@[idx as int] => fields@[idx as int].1));
                    }
                }
                let name = fields[idx].0.clone();
                let value = clone_component(&fields[idx].1);
                copy.push((name, value));
                idx = idx + 1;
            }
            proof {
                lemma_field_models_index(copy@);
                lemma_field_models_index(fields@);
                assert(field_models(copy@) =~= field_models(fields@));
            }
            Component::FieldMap(copy)
        },
        Component::TaggedVariant(name, payload) => {
            proof {
                assert(decreases_to!(*c => **payload)) by {
                    assert(decreases_to!(*c => c->TaggedVariant_1));
                }
            }
            let inner = clone_component(&**payload);
            Component::TaggedVariant(name.clone(), Box::new(inner))
        },
    }
}

} // verus!
