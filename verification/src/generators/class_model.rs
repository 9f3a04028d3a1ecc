//! The mathematical model of a table of class definitions.
use vstd::prelude::*;
use crate::generators::dart_generator::FieldType;

verus! {

/// A field of a class, as contracts speak of it.
pub ghost struct FieldModel {
    /// The key as the document spells it.
    pub key: Seq<char>,
    /// The identifier of the field.
    pub identifier: Seq<char>,
    /// The key again, where the naming rule does not lead from the
    /// identifier back to it.
    pub wire_name: Option<Seq<char>>,
    pub field_type: FieldType,
}

/// A class definition, as contracts speak of it.
pub ghost struct ClassModel {
    pub name: Seq<char>,
    pub fields: Seq<FieldModel>,
    /// The classes found directly inside this one, by index, in the order
    /// in which they were found.
    pub children: Seq<usize>,
}

/// Every class that `ty` refers to lies strictly between `lo` and `hi`.
pub open spec fn type_refs_within(ty: FieldType, lo: int, hi: int) -> bool
    decreases ty,
{
    match ty {
        FieldType::List(inner) => type_refs_within(*inner, lo, hi),
        FieldType::Class(c) => lo < c < hi,
        _ => true,
    }
}

/// Class `i` of the table refers only to classes behind it.
pub open spec fn class_well_formed(t: Seq<ClassModel>, i: int) -> bool {
    &&& forall|k: int|
        0 <= k < t[i].fields.len() ==> type_refs_within(
            #[trigger] t[i].fields[k].field_type,
            i,
            t.len() as int,
        )
    &&& forall|k: int| 0 <= k < t[i].children.len() ==> i < #[trigger] t[i].children[k] < t.len()
}

/// A table of classes is well formed when it has a root, at index 0, and
/// every class refers only to classes behind it: nesting has no cycle.
pub open spec fn well_formed(t: Seq<ClassModel>) -> bool {
    &&& t.len() >= 1
    &&& forall|i: int| 0 <= i < t.len() ==> #[trigger] class_well_formed(t, i)
}

/// The first `n` classes found directly inside class `i`, each followed
/// by the classes nested in it, in the order in which they were found.
pub open spec fn nested(t: Seq<ClassModel>, i: int, n: nat) -> Seq<usize>
    decreases t.len() - i, n,
{
    if n == 0 || n > t[i].children.len() || !(0 <= i < t.len()) {
        Seq::empty()
    } else {
        let c = t[i].children[n - 1];
        let before = nested(t, i, (n - 1) as nat);
        if i < c < t.len() {
            before.push(c) + nested(t, c as int, t[c as int].children.len())
        } else {
            before
        }
    }
}

/// The classes nested in class `i` at any depth: each class found
/// directly inside it, followed by the classes nested in that class.
pub open spec fn descendants(t: Seq<ClassModel>, i: int) -> Seq<usize> {
    nested(t, i, t[i].children.len())
}

/// The indices from `lo` up to, not including, `hi`.
pub open spec fn indices(lo: int, hi: int) -> Seq<usize> {
    Seq::new((hi - lo) as nat, |k: int| (lo + k) as usize)
}

/// The classes nested in class `i` are all the classes behind it in the
/// table, in the order of the table.
pub open spec fn in_walk_order(t: Seq<ClassModel>, i: int) -> bool {
    descendants(t, i) == indices(i + 1, t.len() as int)
}

/// What a class or a field type is made of, with every reference to a
/// class replaced by what that class is made of.
pub ghost enum Shape {
    Dynamic,
    Boolean,
    Integer,
    Double,
    Text,
    List(Box<Shape>),
    /// A class: its current name, and the key and shape of each field.
    Class(Seq<char>, Seq<(Seq<char>, Shape)>),
}

/// The shape of class `i`: its current name and its fields in order, each
/// with its key and the shape of its type.
pub open spec fn class_shape(t: Seq<ClassModel>, i: int) -> Shape
    decreases t.len() - i, 1int, FieldType::Dynamic,
{
    if 0 <= i < t.len() {
        Shape::Class(
            t[i].name,
            Seq::new(
                t[i].fields.len(),
                |k: int| (t[i].fields[k].key, type_shape(t, i, t[i].fields[k].field_type)),
            ),
        )
    } else {
        Shape::Dynamic
    }
}

/// The shape of a field type of class `owner`.
pub open spec fn type_shape(t: Seq<ClassModel>, owner: int, ty: FieldType) -> Shape
    decreases t.len() - owner, 0int, ty,
{
    match ty {
        FieldType::Dynamic => Shape::Dynamic,
        FieldType::Boolean => Shape::Boolean,
        FieldType::Integer => Shape::Integer,
        FieldType::Double => Shape::Double,
        FieldType::Text => Shape::Text,
        FieldType::List(inner) => Shape::List(Box::new(type_shape(t, owner, *inner))),
        FieldType::Class(c) => if owner < c < t.len() {
            class_shape(t, c as int)
        } else {
            Shape::Dynamic
        },
    }
}

/// Two classes are structurally equal when they have the same shape: the
/// same current name and, field by field, the same key and the same shape
/// of type.
pub open spec fn structurally_equal(t: Seq<ClassModel>, i: int, j: int) -> bool {
    class_shape(t, i) == class_shape(t, j)
}

/// A wider range still holds every class that `ty` refers to.
pub proof fn lemma_refs_widen(ty: FieldType, lo: int, hi: int, lo2: int, hi2: int)
    requires
        type_refs_within(ty, lo, hi),
        lo2 <= lo,
        hi <= hi2,
    ensures
        type_refs_within(ty, lo2, hi2),
    decreases ty,
{
    match ty {
        FieldType::List(inner) => lemma_refs_widen(*inner, lo, hi, lo2, hi2),
        _ => {},
    }
}

} // verus!
