//! What the classes emitted for a document have to do with the objects
//! that the document holds.
use vstd::prelude::*;
use crate::generators::{Case, NamingRule, legal_text};
use crate::generators::class_builder::{document_read, object_slots};
use crate::generators::class_model::{
    ClassModel, Shape, class_shape, class_well_formed, descendants, in_walk_order, indices,
    structurally_equal, well_formed,
};
use crate::generators::class_namer::finalized;
use crate::generators::dart_generator::empty_class;
use crate::generators::naming_laws::{
    first_of_its_name, lemma_each_shape_emitted_once, same_name_same_shape,
};
use crate::generators::shape_laws::{
    classes_of, entries_shape, lemma_class_shape, lemma_filled_classes, lemma_root_shape,
    objects_of, objects_of_entries, objects_of_items, value_shape,
};
use crate::json::Json;

verus! {

/// The table that a generator with nothing but a root class, of the given
/// name, has after it has read an object.
pub open spec fn classes_read(
    name: Seq<char>,
    rule: NamingRule,
    entries: Seq<(Seq<char>, Json)>,
) -> Seq<ClassModel> {
    document_read(seq![empty_class(name)], rule, Json::Object(entries)).0
}

/// The objects nested in an object at the root of a document, each with
/// the key it is found under, in the order of a depth-first walk.
pub open spec fn nested_objects(entries: Seq<(Seq<char>, Json)>) -> Seq<(Seq<char>, Json)> {
    objects_of_entries(entries, object_slots(entries), object_slots(entries).len())
}

/// No object before object `k` gets the class name that object `k` gets.
pub open spec fn first_of_its_class_name(objects: Seq<(Seq<char>, Json)>, k: int) -> bool {
    forall|a: int|
        0 <= a < k ==> legal_text((#[trigger] objects[a]).0, Case::Pascal) != legal_text(
            objects[k].0,
            Case::Pascal,
        )
}

/// What `objects_of` lists are objects.
pub proof fn lemma_objects_of(key: Seq<char>, json: Json)
    ensures
        forall|k: int|
            0 <= k < objects_of(key, json).len() ==> (#[trigger] objects_of(
                key,
                json,
            )[k]).1 is Object,
    decreases json, 0nat,
{
    match json {
        Json::Array(items) => {
            lemma_objects_of_items(key, items, items.len());
        },
        Json::Object(entries) => {
            let slots = object_slots(entries);
            lemma_objects_of_entries(entries, slots, slots.len());
        },
        _ => {},
    }
}

/// What `objects_of_items` lists are objects.
pub proof fn lemma_objects_of_items(key: Seq<char>, items: Seq<Json>, n: nat)
    ensures
        forall|k: int|
            0 <= k < objects_of_items(key, items, n).len() ==> (#[trigger] objects_of_items(
                key,
                items,
                n,
            )[k]).1 is Object,
    decreases items, n,
{
    if !(n == 0 || n > items.len()) {
        lemma_objects_of_items(key, items, (n - 1) as nat);
        lemma_objects_of(key, items[n - 1]);
    }
}

/// What `objects_of_entries` lists are objects.
pub proof fn lemma_objects_of_entries(
    entries: Seq<(Seq<char>, Json)>,
    slots: Seq<usize>,
    n: nat,
)
    ensures
        forall|k: int|
            0 <= k < objects_of_entries(entries, slots, n).len() ==> (#[trigger] objects_of_entries(
                entries,
                slots,
                n,
            )[k]).1 is Object,
    decreases entries, n,
{
    if !(n == 0 || n > slots.len()) {
        lemma_objects_of_entries(entries, slots, (n - 1) as nat);
        let i = slots[n - 1] as int;
        if 0 <= i < entries.len() {
            lemma_objects_of(entries[i].0, entries[i].1);
        }
    }
}

/// The table read from an object holds the root class, with the shape
/// that its name and the object decide, and then one class for every
/// object nested in that object, in the order of a depth-first walk, each
/// named by its key in Pascal case and with the shape that its key and
/// the object alone decide.
pub proof fn lemma_classes_of_document(
    name: Seq<char>,
    rule: NamingRule,
    entries: Seq<(Seq<char>, Json)>,
)
    requires
        classes_read(name, rule, entries).len() <= usize::MAX,
    ensures
        classes_read(name, rule, entries)[0].name == name,
        class_shape(classes_read(name, rule, entries), 0) == Shape::Class(
            name,
            entries_shape(entries, object_slots(entries), object_slots(entries).len()),
        ),
        classes_of(classes_read(name, rule, entries), 1, nested_objects(entries)),
        forall|k: int|
            0 <= k < nested_objects(entries).len() ==> (#[trigger] classes_read(
                name,
                rule,
                entries,
            )[1 + k]).name == legal_text(nested_objects(entries)[k].0, Case::Pascal),
{
    let t0 = seq![empty_class(name)];
    let t = classes_read(name, rule, entries);
    let slots = object_slots(entries);
    let objects = nested_objects(entries);
    assert(well_formed(t0)) by {
        assert(class_well_formed(t0, 0));
    }
    assert(in_walk_order(t0, 0)) by {
        assert(descendants(t0, 0) =~= indices(1, 1));
    }
    lemma_root_shape(name, rule, entries);
    lemma_filled_classes(t0, rule, 0, entries, slots, slots.len());
    lemma_class_shape(t, 0);
    lemma_objects_of_entries(entries, slots, slots.len());
    assert forall|k: int| 0 <= k < objects.len() implies (#[trigger] t[1 + k]).name == legal_text(
        objects[k].0,
        Case::Pascal,
    ) by {
        lemma_class_shape(t, 1 + k);
        assert(class_shape(t, 1 + k) == value_shape(objects[k].0, objects[k].1));
        assert(objects[k].1 is Object);
    }
}

/// In a document in which no nested object gets the name of the root
/// class and any two nested objects that get the same class name have
/// the same shape, every shape is emitted once: no class is renamed, the
/// root class is emitted, and of the nested objects exactly those are
/// emitted that are the first to get their class name. What refers to an
/// object that is not emitted names the class of the first.
pub proof fn lemma_identical_objects_emitted_once(
    name: Seq<char>,
    rule: NamingRule,
    entries: Seq<(Seq<char>, Json)>,
)
    requires
        classes_read(name, rule, entries).len() <= usize::MAX,
        forall|a: int|
            0 <= a < nested_objects(entries).len() ==> legal_text(
                (#[trigger] nested_objects(entries)[a]).0,
                Case::Pascal,
            ) != name,
        forall|a: int, b: int|
            0 <= a < b < nested_objects(entries).len() && legal_text(
                (#[trigger] nested_objects(entries)[a]).0,
                Case::Pascal,
            ) == legal_text((#[trigger] nested_objects(entries)[b]).0, Case::Pascal)
                ==> value_shape(nested_objects(entries)[a].0, nested_objects(entries)[a].1)
                == value_shape(nested_objects(entries)[b].0, nested_objects(entries)[b].1),
    ensures
        finalized(classes_read(name, rule, entries)).classes == classes_read(name, rule, entries),
        finalized(classes_read(name, rule, entries)).kept.contains(0),
        forall|k: int|
            0 <= k < nested_objects(entries).len() ==> (finalized(
                classes_read(name, rule, entries),
            ).kept.contains((1 + k) as usize) <==> #[trigger] first_of_its_class_name(
                nested_objects(entries),
                k,
            )),
{
    let t = classes_read(name, rule, entries);
    let objects = nested_objects(entries);
    lemma_classes_of_document(name, rule, entries);
    assert(same_name_same_shape(t)) by {
        assert forall|x: int, y: int|
            0 <= x < y < t.len() && (#[trigger] t[x]).name == (
            #[trigger] t[y]).name implies structurally_equal(t, x, y) by {
            assert(t[1 + (y - 1)].name == legal_text(objects[y - 1].0, Case::Pascal));
            if x > 0 {
                assert(t[1 + (x - 1)].name == legal_text(objects[x - 1].0, Case::Pascal));
                assert(class_shape(t, 1 + (x - 1)) == value_shape(
                    objects[x - 1].0,
                    objects[x - 1].1,
                ));
                assert(class_shape(t, 1 + (y - 1)) == value_shape(
                    objects[y - 1].0,
                    objects[y - 1].1,
                ));
            }
        }
    }
    lemma_each_shape_emitted_once(t, t.len());
    let w = finalized(t);
    assert(first_of_its_name(t, 0));
    assert forall|k: int| 0 <= k < objects.len() implies (w.kept.contains((1 + k) as usize)
        <==> #[trigger] first_of_its_class_name(objects, k)) by {
        let c = 1 + k;
        assert(w.kept.contains(c as usize) <==> first_of_its_name(t, c));
        assert(t[1 + k].name == legal_text(objects[k].0, Case::Pascal));
        if first_of_its_name(t, c) {
            assert forall|a: int| 0 <= a < k implies legal_text(
                (#[trigger] objects[a]).0,
                Case::Pascal,
            ) != legal_text(objects[k].0, Case::Pascal) by {
                assert(t[1 + a].name == legal_text(objects[a].0, Case::Pascal));
                assert(t[1 + a].name != t[c].name);
            }
        }
        if first_of_its_class_name(objects, k) {
            assert forall|x: int| 0 <= x < c implies (#[trigger] t[x]).name != t[c].name by {
                if x > 0 {
                    assert(t[1 + (x - 1)].name == legal_text(objects[x - 1].0, Case::Pascal));
                    assert(legal_text(objects[x - 1].0, Case::Pascal) != legal_text(
                        objects[k].0,
                        Case::Pascal,
                    ));
                }
            }
        }
    }
}

} // verus!
