//! The table lists the classes in the order of a depth-first walk.
use vstd::prelude::*;
use crate::generators::{Case, NamingRule, legal_text};
use crate::generators::builder_laws::{
    lemma_classified_grows, lemma_classified_items_grow, lemma_filled_keeps,
};
use crate::generators::class_builder::{
    classified, classified_items, document_read, field_of, filled, item_type,
    lemma_with_class_well_formed, lemma_with_field_well_formed, object_slots,
};
use crate::generators::class_model::{
    ClassModel, class_well_formed, descendants, in_walk_order, indices, lemma_refs_widen, nested,
    type_refs_within, well_formed,
};
use crate::generators::dart_generator::{FieldType, with_class, with_field};
use crate::json::Json;

verus! {

/// What is nested in a class depends only on what the class and the
/// classes behind it record as found inside them.
pub proof fn lemma_nested_same(t: Seq<ClassModel>, r: Seq<ClassModel>, c: int, n: nat)
    requires
        well_formed(t),
        t.len() <= r.len(),
        0 <= c < t.len(),
        n <= t[c].children.len(),
        n <= r[c].children.len(),
        forall|k: int| 0 <= k < n ==> #[trigger] r[c].children[k] == t[c].children[k],
        forall|i: int| c < i < t.len() ==> (#[trigger] r[i]).children == t[i].children,
    ensures
        nested(r, c, n) == nested(t, c, n),
    decreases t.len() - c, n,
{
    if n > 0 {
        lemma_nested_same(t, r, c, (n - 1) as nat);
        let child = t[c].children[n - 1];
        assert(class_well_formed(t, c));
        assert(c < child < t.len());
        assert(r[c].children[n - 1] == child);
        assert(r[child as int].children == t[child as int].children);
        lemma_nested_same(t, r, child as int, t[child as int].children.len());
    }
}

/// Classifying a value inside the class that all later classes are nested
/// in leaves the table well formed and in that order, and the type of the
/// value refers only to classes behind the class.
pub proof fn lemma_classified_in_order(
    t: Seq<ClassModel>,
    rule: NamingRule,
    owner: int,
    key: Seq<char>,
    json: Json,
)
    requires
        well_formed(t),
        0 <= owner < t.len(),
        in_walk_order(t, owner),
        classified(t, rule, owner, key, json).0.len() <= usize::MAX,
    ensures
        well_formed(classified(t, rule, owner, key, json).0),
        in_walk_order(classified(t, rule, owner, key, json).0, owner),
        type_refs_within(
            classified(t, rule, owner, key, json).1,
            owner,
            classified(t, rule, owner, key, json).0.len() as int,
        ),
    decreases json, 0nat,
{
    match json {
        Json::Array(items) => {
            lemma_classified_items_in_order(t, rule, owner, key, items, items.len());
            let (t2, types) = classified_items(t, rule, owner, key, items, items.len());
            if types.len() > 0 {
                assert(type_refs_within(types[0], owner, t2.len() as int));
            }
            let inner = item_type(t2, owner, types);
            assert(type_refs_within(inner, owner, t2.len() as int));
            assert(type_refs_within(FieldType::List(Box::new(inner)), owner, t2.len() as int));
        },
        Json::Object(entries) => {
            let name = legal_text(key, Case::Pascal);
            let t1 = with_class(t, owner, name);
            let child = t.len() as int;
            let slots = object_slots(entries);
            let r = filled(t1, rule, child, entries, slots, slots.len());
            lemma_filled_keeps(t1, rule, child, entries, slots, slots.len());
            lemma_with_class_well_formed(t, owner, name);
            assert(descendants(t1, child) =~= indices(child + 1, t1.len() as int));
            lemma_filled_in_order(t1, rule, child, entries, slots, slots.len());
            let m = t[owner].children.len();
            assert(r[owner] == t1[owner]);
            assert(r[owner].children == t[owner].children.push(child as usize));
            assert forall|i: int| owner < i < t.len() implies (#[trigger] r[i]).children
                == t[i].children by {
                assert(r[i] == t1[i]);
            }
            lemma_nested_same(t, r, owner, m);
            assert(nested(r, owner, (m + 1) as nat) == nested(r, owner, m).push(child as usize)
                + descendants(r, child));
            assert(descendants(r, owner) =~= indices(owner + 1, r.len() as int));
        },
        _ => {},
    }
}

/// Classifying the items of an array inside the class that all later
/// classes are nested in leaves the table well formed and in that order.
pub proof fn lemma_classified_items_in_order(
    t: Seq<ClassModel>,
    rule: NamingRule,
    owner: int,
    key: Seq<char>,
    items: Seq<Json>,
    n: nat,
)
    requires
        well_formed(t),
        0 <= owner < t.len(),
        in_walk_order(t, owner),
        classified_items(t, rule, owner, key, items, n).0.len() <= usize::MAX,
    ensures
        well_formed(classified_items(t, rule, owner, key, items, n).0),
        in_walk_order(classified_items(t, rule, owner, key, items, n).0, owner),
        forall|k: int|
            0 <= k < classified_items(t, rule, owner, key, items, n).1.len()
                ==> type_refs_within(
                #[trigger] classified_items(t, rule, owner, key, items, n).1[k],
                owner,
                classified_items(t, rule, owner, key, items, n).0.len() as int,
            ),
    decreases items, n,
{
    if !(n == 0 || n > items.len()) {
        let (t1, types) = classified_items(t, rule, owner, key, items, (n - 1) as nat);
        lemma_classified_items_grow(t, rule, owner, key, items, (n - 1) as nat);
        lemma_classified_grows(t1, rule, owner, key, items[n - 1]);
        lemma_classified_items_in_order(t, rule, owner, key, items, (n - 1) as nat);
        lemma_classified_in_order(t1, rule, owner, key, items[n - 1]);
        let (t2, ty) = classified(t1, rule, owner, key, items[n - 1]);
        let all = types.push(ty);
        assert forall|k: int| 0 <= k < all.len() implies type_refs_within(
            #[trigger] all[k],
            owner,
            t2.len() as int,
        ) by {
            if k < types.len() {
                lemma_refs_widen(types[k], owner, t1.len() as int, owner, t2.len() as int);
            }
        }
    }
}

/// Giving fields to the class that all later classes are nested in
/// leaves the table well formed and in that order.
pub proof fn lemma_filled_in_order(
    t: Seq<ClassModel>,
    rule: NamingRule,
    at: int,
    entries: Seq<(Seq<char>, Json)>,
    slots: Seq<usize>,
    n: nat,
)
    requires
        well_formed(t),
        0 <= at < t.len(),
        in_walk_order(t, at),
        filled(t, rule, at, entries, slots, n).len() <= usize::MAX,
    ensures
        well_formed(filled(t, rule, at, entries, slots, n)),
        in_walk_order(filled(t, rule, at, entries, slots, n), at),
    decreases entries, n,
{
    if !(n == 0 || n > slots.len()) {
        let m = (n - 1) as nat;
        let t1 = filled(t, rule, at, entries, slots, m);
        let i = slots[m as int] as int;
        lemma_filled_keeps(t, rule, at, entries, slots, m);
        if 0 <= i < entries.len() {
            lemma_classified_grows(t1, rule, at, entries[i].0, entries[i].1);
            lemma_filled_in_order(t, rule, at, entries, slots, m);
            lemma_classified_in_order(t1, rule, at, entries[i].0, entries[i].1);
            let (t2, ty) = classified(t1, rule, at, entries[i].0, entries[i].1);
            let field = field_of(rule, entries[i].0, ty);
            let r = with_field(t2, at, field);
            lemma_with_field_well_formed(t2, at, field);
            assert(class_well_formed(t2, at));
            lemma_nested_same(t2, r, at, t2[at].children.len());
        } else {
            lemma_filled_in_order(t, rule, at, entries, slots, m);
        }
    }
}

/// Reading a document into a table whose classes are all nested in the
/// root, in the order of the table, leaves the table so.
pub proof fn lemma_document_read_in_order(t: Seq<ClassModel>, rule: NamingRule, json: Json)
    requires
        well_formed(t),
        in_walk_order(t, 0),
        document_read(t, rule, json).0.len() <= usize::MAX,
    ensures
        well_formed(document_read(t, rule, json).0),
        in_walk_order(document_read(t, rule, json).0, 0),
{
    match json {
        Json::Object(entries) => {
            lemma_filled_in_order(
                t,
                rule,
                0,
                entries,
                object_slots(entries),
                object_slots(entries).len(),
            );
        },
        _ => {
            lemma_classified_in_order(t, rule, 0, t[0].name, json);
        },
    }
}

/// The order of the table is the order of a depth-first walk from the
/// root: the root, then every class found inside it, each followed by
/// the classes nested in it.
pub proof fn lemma_table_in_walk_order(t: Seq<ClassModel>)
    requires
        well_formed(t),
        in_walk_order(t, 0),
    ensures
        seq![0usize] + descendants(t, 0) == indices(0, t.len() as int),
{
    assert(seq![0usize] + descendants(t, 0) =~= indices(0, t.len() as int));
}

} // verus!
