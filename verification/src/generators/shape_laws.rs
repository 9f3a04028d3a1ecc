//! The shape of a class depends on nothing but the key and the value it
//! was made from.
use vstd::prelude::*;
use crate::generators::{Case, NamingRule, legal_text};
use crate::generators::builder_laws::{
    lemma_classified_grows, lemma_classified_items_grow, lemma_filled_keeps,
};
use crate::generators::class_builder::{
    classified, classified_items, document_read, field_of, filled, item_type,
    lemma_with_class_well_formed, lemma_with_field_well_formed, object_slots,
};
use crate::generators::class_equality::field_shape;
use crate::generators::class_model::{
    ClassModel, Shape, class_shape, class_well_formed, descendants, in_walk_order, indices,
    type_refs_within, type_shape, well_formed,
};
use crate::generators::dart_generator::{FieldType, empty_class, with_class, with_field};
use crate::generators::tree_laws::{
    lemma_classified_in_order, lemma_classified_items_in_order, lemma_filled_in_order,
};
use crate::json::Json;

verus! {

/// The shape of the type that the value found under `key` is classified
/// as.
pub open spec fn value_shape(key: Seq<char>, json: Json) -> Shape
    decreases json, 0nat,
{
    match json {
        Json::Null => Shape::Dynamic,
        Json::Boolean(_) => Shape::Boolean,
        Json::Number { is_i64, is_f64 } => if is_i64 {
            Shape::Integer
        } else if is_f64 {
            Shape::Double
        } else {
            Shape::Dynamic
        },
        Json::Text(_) => Shape::Text,
        Json::Array(items) => Shape::List(Box::new(items_shape(key, items))),
        Json::Object(entries) => Shape::Class(
            legal_text(key, Case::Pascal),
            entries_shape(entries, object_slots(entries), object_slots(entries).len()),
        ),
    }
}

/// The shape of the type of the items of an array found under `key`: the
/// shape of the first item, where all items have that shape, else
/// `dynamic`.
pub open spec fn items_shape(key: Seq<char>, items: Seq<Json>) -> Shape
    decreases items, items.len() + 1,
{
    if items.len() > 0 && same_shapes(key, items, items.len()) {
        value_shape(key, items[0])
    } else {
        Shape::Dynamic
    }
}

/// Each of the first `n` items of an array found under `key` has a type
/// of the shape of the first item's.
pub open spec fn same_shapes(key: Seq<char>, items: Seq<Json>, n: nat) -> bool
    decreases items, n,
{
    if n == 0 || n > items.len() {
        true
    } else {
        same_shapes(key, items, (n - 1) as nat) && value_shape(key, items[n - 1]) == value_shape(
            key,
            items[0],
        )
    }
}

/// `same_shapes` holds exactly when every one of the items has a type of
/// the shape of the first item's.
pub proof fn lemma_same_shapes(key: Seq<char>, items: Seq<Json>, n: nat)
    requires
        n <= items.len(),
    ensures
        same_shapes(key, items, n) <==> (forall|k: int|
            0 <= k < n ==> value_shape(key, #[trigger] items[k]) == value_shape(key, items[0])),
    decreases n,
{
    if n > 0 {
        lemma_same_shapes(key, items, (n - 1) as nat);
        if same_shapes(key, items, n) {
            assert forall|k: int| 0 <= k < n implies value_shape(key, #[trigger] items[k])
                == value_shape(key, items[0]) by {}
        }
    }
}

/// The key and the shape of the type of the field for each of the first
/// `n` of the given entries of an object.
pub open spec fn entries_shape(entries: Seq<(Seq<char>, Json)>, slots: Seq<usize>, n: nat) -> Seq<
    (Seq<char>, Shape),
>
    decreases entries, n,
{
    if n == 0 || n > slots.len() {
        Seq::empty()
    } else {
        let before = entries_shape(entries, slots, (n - 1) as nat);
        let i = slots[n - 1] as int;
        if 0 <= i < entries.len() {
            before.push((entries[i].0, value_shape(entries[i].0, entries[i].1)))
        } else {
            before
        }
    }
}

/// The key and the shape of the type of every field of class `i`.
pub open spec fn fields_shape(t: Seq<ClassModel>, i: int) -> Seq<(Seq<char>, Shape)> {
    Seq::new(t[i].fields.len(), |k: int| field_shape(t, i, k))
}

/// The shape of a class is its name with the shapes of its fields.
pub proof fn lemma_class_shape(t: Seq<ClassModel>, i: int)
    requires
        0 <= i < t.len(),
    ensures
        class_shape(t, i) == Shape::Class(t[i].name, fields_shape(t, i)),
{
    assert(class_shape(t, i)->Class_1 =~= fields_shape(t, i));
}

/// A class keeps its shape while the classes behind `lo`, of which it is
/// one, stay as they are.
pub proof fn lemma_class_shape_stays(t: Seq<ClassModel>, r: Seq<ClassModel>, lo: int, c: int)
    requires
        well_formed(t),
        t.len() <= r.len(),
        0 <= c < t.len(),
        lo < c,
        forall|i: int| lo < i < t.len() ==> #[trigger] r[i] == t[i],
    ensures
        class_shape(r, c) == class_shape(t, c),
    decreases t.len() - c, 1int, FieldType::Dynamic,
{
    assert(class_well_formed(t, c));
    assert(r[c] == t[c]);
    lemma_class_shape(t, c);
    lemma_class_shape(r, c);
    assert forall|k: int| 0 <= k < t[c].fields.len() implies field_shape(r, c, k) == field_shape(
        t,
        c,
        k,
    ) by {
        assert(type_refs_within(t[c].fields[k].field_type, c, t.len() as int));
        lemma_type_shape_stays(t, r, c, c, c, t[c].fields[k].field_type);
    }
    assert(fields_shape(r, c) =~= fields_shape(t, c));
}

/// A type keeps its shape while the classes it refers to, all behind
/// `lo`, stay as they are.
pub proof fn lemma_type_shape_stays(
    t: Seq<ClassModel>,
    r: Seq<ClassModel>,
    lo: int,
    owner_t: int,
    owner_r: int,
    ty: FieldType,
)
    requires
        well_formed(t),
        t.len() <= r.len(),
        0 <= lo < t.len(),
        owner_t <= lo,
        owner_r <= lo,
        type_refs_within(ty, lo, t.len() as int),
        forall|i: int| lo < i < t.len() ==> #[trigger] r[i] == t[i],
    ensures
        type_shape(r, owner_r, ty) == type_shape(t, owner_t, ty),
    decreases t.len() - lo, 0int, ty,
{
    match ty {
        FieldType::List(inner) => {
            lemma_type_shape_stays(t, r, lo, owner_t, owner_r, *inner);
        },
        FieldType::Class(c) => {
            lemma_class_shape_stays(t, r, lo, c as int);
        },
        _ => {},
    }
}

/// The type that a value is classified as has the shape that the key and
/// the value alone decide, whatever the table holds.
pub proof fn lemma_classified_shape(
    t: Seq<ClassModel>,
    rule: NamingRule,
    owner: int,
    key: Seq<char>,
    json: Json,
)
    requires
        well_formed(t),
        0 <= owner < t.len(),
        in_walk_order(t, owner),
        classified(t, rule, owner, key, json).0.len() <= usize::MAX,
    ensures
        type_shape(
            classified(t, rule, owner, key, json).0,
            owner,
            classified(t, rule, owner, key, json).1,
        ) == value_shape(key, json),
    decreases json, 0nat,
{
    match json {
        Json::Array(items) => {
            let (t2, types) = classified_items(t, rule, owner, key, items, items.len());
            lemma_classified_items_shape(t, rule, owner, key, items, items.len());
            assert forall|k: int| 0 <= k < items.len() implies type_shape(
                t2,
                owner,
                #[trigger] types[k],
            ) == value_shape(key, items[k]) by {}
            let inner = item_type(t2, owner, types);
            lemma_same_shapes(key, items, items.len());
            assert(types.len() == items.len());
            if items.len() > 0 {
                assert(type_shape(t2, owner, types[0]) == value_shape(key, items[0]));
                if same_shapes(key, items, items.len()) {
                    assert forall|k: int| 0 <= k < types.len() implies type_shape(
                        t2,
                        owner,
                        #[trigger] types[k],
                    ) == type_shape(t2, owner, types[0]) by {
                        assert(value_shape(key, items[k]) == value_shape(key, items[0]));
                    }
                    assert(inner == types[0]);
                } else {
                    let k = choose|k: int|
                        0 <= k < items.len() && value_shape(key, #[trigger] items[k])
                            != value_shape(key, items[0]);
                    assert(type_shape(t2, owner, types[k]) != type_shape(t2, owner, types[0]));
                    assert(inner == FieldType::Dynamic);
                }
            } else {
                assert(inner == FieldType::Dynamic);
            }
            assert(type_shape(t2, owner, inner) == items_shape(key, items));
        },
        Json::Object(entries) => {
            let name = legal_text(key, Case::Pascal);
            let t1 = with_class(t, owner, name);
            let child = t.len() as int;
            let slots = object_slots(entries);
            let r = filled(t1, rule, child, entries, slots, slots.len());
            lemma_classified_grows(t, rule, owner, key, json);
            lemma_with_class_well_formed(t, owner, name);
            assert(in_walk_order(t1, child)) by {
                assert(descendants(t1, child) =~= indices(child + 1, t1.len() as int));
            }
            lemma_filled_shape(t1, rule, child, entries, slots, slots.len());
            lemma_filled_keeps(t1, rule, child, entries, slots, slots.len());
            assert(fields_shape(t1, child) =~= Seq::empty());
            assert(fields_shape(t1, child) + entries_shape(entries, slots, slots.len())
                =~= entries_shape(entries, slots, slots.len()));
        },
        _ => {},
    }
}

/// The types of the items of an array have the shapes that the key and
/// the items alone decide, whatever the table holds.
pub proof fn lemma_classified_items_shape(
    t: Seq<ClassModel>,
    rule: NamingRule,
    owner: int,
    key: Seq<char>,
    items: Seq<Json>,
    n: nat,
)
    requires
        well_formed(t),
        0 <= owner < t.len(),
        in_walk_order(t, owner),
        n <= items.len(),
        classified_items(t, rule, owner, key, items, n).0.len() <= usize::MAX,
    ensures
        classified_items(t, rule, owner, key, items, n).1.len() == n,
        forall|k: int|
            0 <= k < n ==> type_shape(
                classified_items(t, rule, owner, key, items, n).0,
                owner,
                #[trigger] classified_items(t, rule, owner, key, items, n).1[k],
            ) == value_shape(key, items[k]),
    decreases items, n,
{
    if n > 0 {
        let m = (n - 1) as nat;
        let (t1, types) = classified_items(t, rule, owner, key, items, m);
        lemma_classified_items_grow(t, rule, owner, key, items, m);
        lemma_classified_grows(t1, rule, owner, key, items[m as int]);
        lemma_classified_items_in_order(t, rule, owner, key, items, m);
        lemma_classified_items_shape(t, rule, owner, key, items, m);
        lemma_classified_shape(t1, rule, owner, key, items[m as int]);
        let (t2, ty) = classified(t1, rule, owner, key, items[m as int]);
        let all = types.push(ty);
        assert forall|k: int| 0 <= k < n implies type_shape(t2, owner, #[trigger] all[k])
            == value_shape(key, items[k]) by {
            if k < m {
                assert(all[k] == types[k]);
                assert(type_refs_within(types[k], owner, t1.len() as int));
                lemma_type_shape_stays(t1, t2, owner, owner, owner, types[k]);
            }
        }
    }
}

/// After a class has received a field for each of the first `n` of the
/// given entries, its shape is its name with the shapes of the fields it
/// had, followed by the shapes that the entries alone decide.
pub proof fn lemma_filled_shape(
    t: Seq<ClassModel>,
    rule: NamingRule,
    at: int,
    entries: Seq<(Seq<char>, Json)>,
    slots: Seq<usize>,
    n: nat,
)
    requires
        well_formed(t),
        0 <= at < t.len(),
        in_walk_order(t, at),
        n <= slots.len(),
        filled(t, rule, at, entries, slots, n).len() <= usize::MAX,
    ensures
        class_shape(filled(t, rule, at, entries, slots, n), at) == Shape::Class(
            t[at].name,
            fields_shape(t, at) + entries_shape(entries, slots, n),
        ),
    decreases entries, n,
{
    if n == 0 {
        lemma_class_shape(t, at);
        assert(fields_shape(t, at) + entries_shape(entries, slots, n) =~= fields_shape(t, at));
    } else {
        let m = (n - 1) as nat;
        let t1 = filled(t, rule, at, entries, slots, m);
        let i = slots[m as int] as int;
        lemma_filled_keeps(t, rule, at, entries, slots, m);
        if 0 <= i < entries.len() {
            lemma_classified_grows(t1, rule, at, entries[i].0, entries[i].1);
            lemma_filled_in_order(t, rule, at, entries, slots, m);
            lemma_filled_shape(t, rule, at, entries, slots, m);
            lemma_classified_in_order(t1, rule, at, entries[i].0, entries[i].1);
            lemma_classified_shape(t1, rule, at, entries[i].0, entries[i].1);
            let (t2, ty) = classified(t1, rule, at, entries[i].0, entries[i].1);
            let field = field_of(rule, entries[i].0, ty);
            let r = with_field(t2, at, field);
            lemma_with_field_well_formed(t2, at, field);
            lemma_class_shape(t1, at);
            lemma_class_shape(r, at);
            let old_shapes = fields_shape(t1, at);
            assert(class_well_formed(t1, at));
            assert(r[at].fields == t1[at].fields.push(field));
            assert forall|k: int| 0 <= k < r[at].fields.len() implies #[trigger] fields_shape(
                r,
                at,
            )[k] == old_shapes.push((entries[i].0, value_shape(entries[i].0, entries[i].1)))[k] by {
                if k < t1[at].fields.len() {
                    assert(r[at].fields[k] == t1[at].fields[k]);
                    assert(type_refs_within(t1[at].fields[k].field_type, at, t1.len() as int));
                    lemma_type_shape_stays(t1, r, at, at, at, t1[at].fields[k].field_type);
                } else {
                    lemma_type_shape_stays(t2, r, at, at, at, ty);
                }
            }
            assert(fields_shape(r, at) =~= old_shapes.push(
                (entries[i].0, value_shape(entries[i].0, entries[i].1)),
            ));
            assert(fields_shape(t, at) + entries_shape(entries, slots, n) =~= (fields_shape(t, at)
                + entries_shape(entries, slots, m)).push(
                (entries[i].0, value_shape(entries[i].0, entries[i].1)),
            ));
        } else {
            lemma_filled_shape(t, rule, at, entries, slots, m);
        }
    }
}

/// Classifying a value inside a class leaves every class behind that
/// class with the shape it had.
pub proof fn lemma_classified_keeps_shapes(
    t: Seq<ClassModel>,
    rule: NamingRule,
    owner: int,
    key: Seq<char>,
    json: Json,
    c: int,
)
    requires
        well_formed(t),
        0 <= owner < c < t.len(),
    ensures
        class_shape(classified(t, rule, owner, key, json).0, c) == class_shape(t, c),
{
    lemma_classified_grows(t, rule, owner, key, json);
    lemma_class_shape_stays(t, classified(t, rule, owner, key, json).0, owner, c);
}

/// An array without items is a list of `dynamic`.
pub proof fn lemma_empty_array(t: Seq<ClassModel>, rule: NamingRule, owner: int, key: Seq<char>)
    ensures
        classified(t, rule, owner, key, Json::Array(Seq::empty())) == (
            t,
            FieldType::List(Box::new(FieldType::Dynamic)),
        ),
{
}

/// An array that has two items whose types differ in shape is a list of
/// `dynamic`, as an array without items is.
pub proof fn lemma_mixed_array(
    t: Seq<ClassModel>,
    rule: NamingRule,
    owner: int,
    key: Seq<char>,
    items: Seq<Json>,
    a: int,
    b: int,
)
    requires
        well_formed(t),
        0 <= owner < t.len(),
        in_walk_order(t, owner),
        classified(t, rule, owner, key, Json::Array(items)).0.len() <= usize::MAX,
        0 <= a < items.len(),
        0 <= b < items.len(),
        value_shape(key, items[a]) != value_shape(key, items[b]),
    ensures
        classified(t, rule, owner, key, Json::Array(items)).1 == FieldType::List(
            Box::new(FieldType::Dynamic),
        ),
{
    let (t2, types) = classified_items(t, rule, owner, key, items, items.len());
    lemma_classified_items_shape(t, rule, owner, key, items, items.len());
    assert(type_shape(t2, owner, types[a]) == value_shape(key, items[a]));
    assert(type_shape(t2, owner, types[b]) == value_shape(key, items[b]));
    if item_type(t2, owner, types) != FieldType::Dynamic {
        assert(type_shape(t2, owner, types[a]) == type_shape(t2, owner, types[0]));
        assert(type_shape(t2, owner, types[b]) == type_shape(t2, owner, types[0]));
    }
}

/// The root class of a table that holds nothing else has, after it has
/// read an object, the shape that its name and the object alone decide.
pub proof fn lemma_root_shape(
    name: Seq<char>,
    rule: NamingRule,
    entries: Seq<(Seq<char>, Json)>,
)
    requires
        document_read(seq![empty_class(name)], rule, Json::Object(entries)).0.len() <= usize::MAX,
    ensures
        class_shape(document_read(seq![empty_class(name)], rule, Json::Object(entries)).0, 0)
            == Shape::Class(
            name,
            entries_shape(entries, object_slots(entries), object_slots(entries).len()),
        ),
{
    let t = seq![empty_class(name)];
    let slots = object_slots(entries);
    assert(well_formed(t)) by {
        assert(class_well_formed(t, 0));
    }
    assert(in_walk_order(t, 0)) by {
        assert(descendants(t, 0) =~= indices(1, 1));
    }
    lemma_filled_shape(t, rule, 0, entries, slots, slots.len());
    assert(fields_shape(t, 0) =~= Seq::empty());
    assert(fields_shape(t, 0) + entries_shape(entries, slots, slots.len()) =~= entries_shape(
        entries,
        slots,
        slots.len(),
    ));
}

/// The objects that the value found under `key` holds, each with the key
/// it is found under, in the order of a depth-first walk: every object
/// before the objects nested in it. An object found in an array goes
/// under the key of the array.
pub open spec fn objects_of(key: Seq<char>, json: Json) -> Seq<(Seq<char>, Json)>
    decreases json, 0nat,
{
    match json {
        Json::Array(items) => objects_of_items(key, items, items.len()),
        Json::Object(entries) => seq![(key, json)] + objects_of_entries(
            entries,
            object_slots(entries),
            object_slots(entries).len(),
        ),
        _ => Seq::empty(),
    }
}

/// The objects that the first `n` items of an array found under `key`
/// hold.
pub open spec fn objects_of_items(key: Seq<char>, items: Seq<Json>, n: nat) -> Seq<
    (Seq<char>, Json),
>
    decreases items, n,
{
    if n == 0 || n > items.len() {
        Seq::empty()
    } else {
        objects_of_items(key, items, (n - 1) as nat) + objects_of(key, items[n - 1])
    }
}

/// The objects that the values of the first `n` of the given entries of
/// an object hold.
pub open spec fn objects_of_entries(
    entries: Seq<(Seq<char>, Json)>,
    slots: Seq<usize>,
    n: nat,
) -> Seq<(Seq<char>, Json)>
    decreases entries, n,
{
    if n == 0 || n > slots.len() {
        Seq::empty()
    } else {
        let before = objects_of_entries(entries, slots, (n - 1) as nat);
        let i = slots[n - 1] as int;
        if 0 <= i < entries.len() {
            before + objects_of(entries[i].0, entries[i].1)
        } else {
            before
        }
    }
}

/// The classes from index `from` on are the classes of the given
/// objects, one for each and in their order, each with the shape that the
/// key and the object alone decide.
pub open spec fn classes_of(
    t: Seq<ClassModel>,
    from: int,
    objects: Seq<(Seq<char>, Json)>,
) -> bool {
    &&& t.len() == from + objects.len()
    &&& forall|k: int|
        0 <= k < objects.len() ==> #[trigger] class_shape(t, from + k) == value_shape(
            objects[k].0,
            objects[k].1,
        )
}

/// Classifying a value appends one class for every object that the value
/// holds, in the order of a depth-first walk, each with the shape that
/// the key and the object alone decide.
pub proof fn lemma_classified_classes(
    t: Seq<ClassModel>,
    rule: NamingRule,
    owner: int,
    key: Seq<char>,
    json: Json,
)
    requires
        well_formed(t),
        0 <= owner < t.len(),
        in_walk_order(t, owner),
        classified(t, rule, owner, key, json).0.len() <= usize::MAX,
    ensures
        classes_of(classified(t, rule, owner, key, json).0, t.len() as int, objects_of(key, json)),
    decreases json, 0nat,
{
    match json {
        Json::Array(items) => {
            lemma_classified_items_classes(t, rule, owner, key, items, items.len());
        },
        Json::Object(entries) => {
            let name = legal_text(key, Case::Pascal);
            let t1 = with_class(t, owner, name);
            let child = t.len() as int;
            let slots = object_slots(entries);
            let r = filled(t1, rule, child, entries, slots, slots.len());
            let inner = objects_of_entries(entries, slots, slots.len());
            let objects = objects_of(key, json);
            lemma_classified_grows(t, rule, owner, key, json);
            lemma_with_class_well_formed(t, owner, name);
            assert(in_walk_order(t1, child)) by {
                assert(descendants(t1, child) =~= indices(child + 1, t1.len() as int));
            }
            lemma_filled_classes(t1, rule, child, entries, slots, slots.len());
            lemma_classified_shape(t, rule, owner, key, json);
            assert(objects == seq![(key, json)] + inner);
            assert forall|k: int| 0 <= k < objects.len() implies #[trigger] class_shape(
                r,
                child + k,
            ) == value_shape(objects[k].0, objects[k].1) by {
                if k > 0 {
                    assert(class_shape(r, t1.len() + (k - 1)) == value_shape(
                        inner[k - 1].0,
                        inner[k - 1].1,
                    ));
                    assert(objects[k] == inner[k - 1]);
                }
            }
        },
        _ => {},
    }
}

/// Classifying the items of an array appends one class for every object
/// that the items hold.
pub proof fn lemma_classified_items_classes(
    t: Seq<ClassModel>,
    rule: NamingRule,
    owner: int,
    key: Seq<char>,
    items: Seq<Json>,
    n: nat,
)
    requires
        well_formed(t),
        0 <= owner < t.len(),
        in_walk_order(t, owner),
        n <= items.len(),
        classified_items(t, rule, owner, key, items, n).0.len() <= usize::MAX,
    ensures
        classes_of(
            classified_items(t, rule, owner, key, items, n).0,
            t.len() as int,
            objects_of_items(key, items, n),
        ),
    decreases items, n,
{
    if n > 0 {
        let m = (n - 1) as nat;
        let (t1, types) = classified_items(t, rule, owner, key, items, m);
        lemma_classified_items_grow(t, rule, owner, key, items, m);
        lemma_classified_grows(t1, rule, owner, key, items[m as int]);
        lemma_classified_items_in_order(t, rule, owner, key, items, m);
        lemma_classified_items_classes(t, rule, owner, key, items, m);
        lemma_classified_classes(t1, rule, owner, key, items[m as int]);
        let t2 = classified(t1, rule, owner, key, items[m as int]).0;
        let before = objects_of_items(key, items, m);
        let last = objects_of(key, items[m as int]);
        let objects = objects_of_items(key, items, n);
        assert(objects == before + last);
        assert forall|k: int| 0 <= k < objects.len() implies #[trigger] class_shape(
            t2,
            t.len() + k,
        ) == value_shape(objects[k].0, objects[k].1) by {
            if k < before.len() {
                assert(class_shape(t1, t.len() + k) == value_shape(before[k].0, before[k].1));
                lemma_class_shape_stays(t1, t2, owner, t.len() + k);
            } else {
                let j = k - before.len();
                assert(class_shape(t2, t1.len() + j) == value_shape(last[j].0, last[j].1));
            }
        }
    }
}

/// Giving a class a field for each of the given entries appends one class
/// for every object that the values of the entries hold.
pub proof fn lemma_filled_classes(
    t: Seq<ClassModel>,
    rule: NamingRule,
    at: int,
    entries: Seq<(Seq<char>, Json)>,
    slots: Seq<usize>,
    n: nat,
)
    requires
        well_formed(t),
        0 <= at < t.len(),
        in_walk_order(t, at),
        n <= slots.len(),
        filled(t, rule, at, entries, slots, n).len() <= usize::MAX,
    ensures
        classes_of(
            filled(t, rule, at, entries, slots, n),
            t.len() as int,
            objects_of_entries(entries, slots, n),
        ),
    decreases entries, n,
{
    if n > 0 {
        let m = (n - 1) as nat;
        let t1 = filled(t, rule, at, entries, slots, m);
        let i = slots[m as int] as int;
        lemma_filled_keeps(t, rule, at, entries, slots, m);
        if 0 <= i < entries.len() {
            lemma_classified_grows(t1, rule, at, entries[i].0, entries[i].1);
            lemma_filled_in_order(t, rule, at, entries, slots, m);
            lemma_filled_classes(t, rule, at, entries, slots, m);
            lemma_classified_in_order(t1, rule, at, entries[i].0, entries[i].1);
            lemma_classified_classes(t1, rule, at, entries[i].0, entries[i].1);
            let (t2, ty) = classified(t1, rule, at, entries[i].0, entries[i].1);
            let r = with_field(t2, at, field_of(rule, entries[i].0, ty));
            let before = objects_of_entries(entries, slots, m);
            let last = objects_of(entries[i].0, entries[i].1);
            let objects = objects_of_entries(entries, slots, n);
            assert(objects == before + last);
            assert forall|k: int| 0 <= k < objects.len() implies #[trigger] class_shape(
                r,
                t.len() + k,
            ) == value_shape(objects[k].0, objects[k].1) by {
                if k < before.len() {
                    assert(class_shape(t1, t.len() + k) == value_shape(before[k].0, before[k].1));
                    lemma_class_shape_stays(t1, t2, at, t.len() + k);
                } else {
                    let j = k - before.len();
                    assert(class_shape(t2, t1.len() + j) == value_shape(last[j].0, last[j].1));
                }
                lemma_class_shape_stays(t2, r, at, t.len() + k);
            }
        } else {
            lemma_filled_classes(t, rule, at, entries, slots, m);
        }
    }
}

} // verus!
