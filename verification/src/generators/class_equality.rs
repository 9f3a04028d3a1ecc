//! Deciding whether two classes of a table are structurally equal.
use vstd::prelude::*;
use crate::generators::class_model::{
    ClassModel, Shape, class_shape, class_well_formed, structurally_equal, type_refs_within,
    type_shape, well_formed,
};
use crate::generators::dart_generator::{ClassDefinition, FieldType, class_models};

verus! {

/// The key and the shape of the type of field `k` of class `i`.
pub open spec fn field_shape(t: Seq<ClassModel>, i: int, k: int) -> (
    Seq<char>,
    Shape,
) {
    (t[i].fields[k].key, type_shape(t, i, t[i].fields[k].field_type))
}

/// Two classes have the same shape exactly when their names are equal,
/// they have as many fields, and field by field the keys and the shapes
/// of the types are equal.
pub proof fn lemma_same_shape(t: Seq<ClassModel>, i: int, j: int)
    requires
        0 <= i < t.len(),
        0 <= j < t.len(),
    ensures
        structurally_equal(t, i, j) <==> {
            &&& t[i].name == t[j].name
            &&& t[i].fields.len() == t[j].fields.len()
            &&& forall|k: int|
                0 <= k < t[i].fields.len() ==> #[trigger] field_shape(t, i, k) == field_shape(
                    t,
                    j,
                    k,
                )
        },
{
    let fi = Seq::new(t[i].fields.len(), |k: int| field_shape(t, i, k));
    let fj = Seq::new(t[j].fields.len(), |k: int| field_shape(t, j, k));
    assert(class_shape(t, i) == Shape::Class(t[i].name, fi)) by {
        assert(class_shape(t, i)->Class_1 =~= fi);
    }
    assert(class_shape(t, j) == Shape::Class(t[j].name, fj)) by {
        assert(class_shape(t, j)->Class_1 =~= fj);
    }
    if structurally_equal(t, i, j) {
        assert(fi == fj);
        assert(fi.len() == fj.len());
        assert forall|k: int| 0 <= k < t[i].fields.len() implies #[trigger] field_shape(t, i, k)
            == field_shape(t, j, k) by {
            assert(fi[k] == fj[k]);
        }
    }
    if t[i].name == t[j].name && t[i].fields.len() == t[j].fields.len() && (forall|k: int|
        0 <= k < t[i].fields.len() ==> #[trigger] field_shape(t, i, k) == field_shape(t, j, k)) {
        assert(fi =~= fj);
    }
}

/// Whether classes `i` and `j` are structurally equal: whether they have
/// the same name and, field by field, the same key and the same type,
/// where two nested classes are the same type when they are structurally
/// equal in turn.
pub fn same_class(classes: &Vec<ClassDefinition>, i: usize, j: usize) -> (same: bool)
    requires
        well_formed(class_models(classes@)),
        i < classes.len(),
        j < classes.len(),
    ensures
        same == structurally_equal(class_models(classes@), i as int, j as int),
    decreases classes.len() - i, 1int, FieldType::Dynamic,
{
    let ghost t = class_models(classes@);
    let a = &classes[i];
    let b = &classes[j];
    proof {
        lemma_same_shape(t, i as int, j as int);
        assert(a@ == t[i as int]);
        assert(b@ == t[j as int]);
        assert(class_well_formed(t, i as int));
        assert(class_well_formed(t, j as int));
    }
    if a.class_name != b.class_name || a.fields.len() != b.fields.len() {
        return false;
    }
    let mut k: usize = 0;
    while k < a.fields.len()
        invariant
            k <= a.fields.len(),
            a.fields.len() == b.fields.len(),
            t == class_models(classes@),
            well_formed(t),
            i < classes.len(),
            j < classes.len(),
            a@ == t[i as int],
            b@ == t[j as int],
            class_well_formed(t, i as int),
            class_well_formed(t, j as int),
            forall|m: int|
                0 <= m < k ==> #[trigger] field_shape(t, i as int, m) == field_shape(
                    t,
                    j as int,
                    m,
                ),
            structurally_equal(t, i as int, j as int) <==> {
                &&& t[i as int].name == t[j as int].name
                &&& t[i as int].fields.len() == t[j as int].fields.len()
                &&& forall|m: int|
                    0 <= m < t[i as int].fields.len() ==> #[trigger] field_shape(t, i as int, m)
                        == field_shape(t, j as int, m)
            },
        decreases a.fields.len() - k,
    {
        let fa = &a.fields[k];
        let fb = &b.fields[k];
        proof {
            assert(fa@ == t[i as int].fields[k as int]);
            assert(fb@ == t[j as int].fields[k as int]);
            let ta = t[i as int].fields[k as int].field_type;
            let tb = t[j as int].fields[k as int].field_type;
            assert(type_refs_within(ta, i as int, t.len() as int));
            assert(type_refs_within(tb, j as int, t.len() as int));
        }
        if fa.key != fb.key || !same_type(classes, i, &fa.field_type, j, &fb.field_type) {
            assert(field_shape(t, i as int, k as int) != field_shape(t, j as int, k as int));
            return false;
        }
        assert(field_shape(t, i as int, k as int) == field_shape(t, j as int, k as int));
        k += 1;
    }
    true
}

/// Whether a field type of class `owner_a` and one of class `owner_b` are
/// the same type.
pub fn same_type(
    classes: &Vec<ClassDefinition>,
    owner_a: usize,
    a: &FieldType,
    owner_b: usize,
    b: &FieldType,
) -> (same: bool)
    requires
        well_formed(class_models(classes@)),
        type_refs_within(*a, owner_a as int, classes.len() as int),
        type_refs_within(*b, owner_b as int, classes.len() as int),
    ensures
        same == (type_shape(class_models(classes@), owner_a as int, *a) == type_shape(
            class_models(classes@),
            owner_b as int,
            *b,
        )),
    decreases classes.len() - owner_a, 0int, *a,
{
    match (a, b) {
        (FieldType::Dynamic, FieldType::Dynamic) => true,
        (FieldType::Boolean, FieldType::Boolean) => true,
        (FieldType::Integer, FieldType::Integer) => true,
        (FieldType::Double, FieldType::Double) => true,
        (FieldType::Text, FieldType::Text) => true,
        (FieldType::List(x), FieldType::List(y)) => same_type(classes, owner_a, x, owner_b, y),
        (FieldType::Class(x), FieldType::Class(y)) => same_class(classes, *x, *y),
        _ => false,
    }
}

} // verus!
