//! Inferring class definitions from a JSON value.
use vstd::prelude::*;
use crate::generators::{
    Case, ClassError, NamingRule, cased_text, legal_text, to_case, to_legal_case,
};
use crate::generators::builder_laws::lemma_slot_of;
use crate::generators::class_equality::same_type;
use crate::generators::class_model::{
    ClassModel, FieldModel, class_well_formed, lemma_refs_widen, type_refs_within, type_shape,
    well_formed,
};
use crate::generators::dart_generator::{
    ClassDefinition, DartClassGenerator, Field, FieldType, class_models, with_class, with_field,
};
use crate::generators::tree_laws::{lemma_classified_in_order, lemma_filled_in_order};
use crate::json::{Json, JsonValue, entry_models, item_models, lemma_array_view, lemma_object_view};

verus! {

/// The position in `slots` of the entry that has `key`, or -1.
pub open spec fn slot_of(entries: Seq<(Seq<char>, Json)>, slots: Seq<usize>, key: Seq<char>) -> int
    decreases slots.len(),
{
    if slots.len() == 0 {
        -1
    } else {
        let before = slot_of(entries, slots.drop_last(), key);
        if before >= 0 {
            before
        } else if entries[slots.last() as int].0 == key {
            slots.len() - 1
        } else {
            -1
        }
    }
}

/// The entries that the first `n` entries of an object leave: for every
/// key the index of its last occurrence, the keys in the order in which
/// they first occur.
pub open spec fn key_slots(entries: Seq<(Seq<char>, Json)>, n: nat) -> Seq<usize>
    decreases n,
{
    if n == 0 {
        Seq::empty()
    } else {
        let before = key_slots(entries, (n - 1) as nat);
        let p = slot_of(entries, before, entries[n - 1].0);
        if p >= 0 {
            before.update(p, (n - 1) as usize)
        } else {
            before.push((n - 1) as usize)
        }
    }
}

/// The entries of an object as the generator reads them: every key once,
/// at the place of its first occurrence, with its last value.
pub open spec fn object_slots(entries: Seq<(Seq<char>, Json)>) -> Seq<usize> {
    key_slots(entries, entries.len())
}

/// The type of a number: an integer where it is kept as a 64-bit integer,
/// else a double where it is kept as a double. A number that is neither
/// has no type: `defect` refuses a document that holds one.
pub open spec fn number_type(is_i64: bool, is_f64: bool) -> FieldType {
    if is_i64 {
        FieldType::Integer
    } else if is_f64 {
        FieldType::Double
    } else {
        FieldType::Dynamic
    }
}

/// The type of the items of an array: the type of the first, where every
/// item has a type of the same shape; `dynamic` for an empty array and
/// for items of different types.
pub open spec fn item_type(t: Seq<ClassModel>, owner: int, types: Seq<FieldType>) -> FieldType {
    if types.len() > 0 && (forall|k: int|
        0 <= k < types.len() ==> type_shape(t, owner, #[trigger] types[k]) == type_shape(
            t,
            owner,
            types[0],
        )) {
        types[0]
    } else {
        FieldType::Dynamic
    }
}

/// The field that a key and the type of its value make under a naming
/// rule. The identifier is the key legalized in camel case. The field
/// carries its key as its wire name unless the key, put in the casing of
/// the rule, is the identifier.
pub open spec fn field_of(rule: NamingRule, key: Seq<char>, ty: FieldType) -> FieldModel {
    let identifier = legal_text(key, Case::Camel);
    FieldModel {
        key,
        identifier,
        wire_name: if identifier == cased_text(key, rule.case()) {
            None
        } else {
            Some(key)
        },
        field_type: ty,
    }
}

/// The table after the value found under `key` in class `owner` has been
/// classified, and the type of the value.
///
/// An object becomes a class of its own, named by the key legalized in
/// Pascal case, appended to the table and recorded as found inside
/// `owner`; its type refers to that class. The objects among the items of
/// an array become classes in the same way, under the key of the array.
pub open spec fn classified(
    t: Seq<ClassModel>,
    rule: NamingRule,
    owner: int,
    key: Seq<char>,
    json: Json,
) -> (Seq<ClassModel>, FieldType)
    decreases json, 0nat,
{
    match json {
        Json::Null => (t, FieldType::Dynamic),
        Json::Boolean(_) => (t, FieldType::Boolean),
        Json::Number { is_i64, is_f64 } => (t, number_type(is_i64, is_f64)),
        Json::Text(_) => (t, FieldType::Text),
        Json::Array(items) => {
            let (t2, types) = classified_items(t, rule, owner, key, items, items.len());
            (t2, FieldType::List(Box::new(item_type(t2, owner, types))))
        },
        Json::Object(entries) => {
            let t1 = with_class(t, owner, legal_text(key, Case::Pascal));
            let slots = object_slots(entries);
            (
                filled(t1, rule, t.len() as int, entries, slots, slots.len()),
                FieldType::Class(t.len() as usize),
            )
        },
    }
}

/// The table after the first `n` items of an array found under `key` in
/// class `owner` have been classified in turn, and their types.
pub open spec fn classified_items(
    t: Seq<ClassModel>,
    rule: NamingRule,
    owner: int,
    key: Seq<char>,
    items: Seq<Json>,
    n: nat,
) -> (Seq<ClassModel>, Seq<FieldType>)
    decreases items, n,
{
    if n == 0 || n > items.len() {
        (t, Seq::empty())
    } else {
        let (t1, types) = classified_items(t, rule, owner, key, items, (n - 1) as nat);
        let (t2, ty) = classified(t1, rule, owner, key, items[n - 1]);
        (t2, types.push(ty))
    }
}

/// The table after class `at` has received a field for each of the first
/// `n` of the given entries of an object, in turn.
pub open spec fn filled(
    t: Seq<ClassModel>,
    rule: NamingRule,
    at: int,
    entries: Seq<(Seq<char>, Json)>,
    slots: Seq<usize>,
    n: nat,
) -> Seq<ClassModel>
    decreases entries, n,
{
    if n == 0 || n > slots.len() {
        t
    } else {
        let t1 = filled(t, rule, at, entries, slots, (n - 1) as nat);
        let i = slots[n - 1] as int;
        if 0 <= i < entries.len() {
            let (t2, ty) = classified(t1, rule, at, entries[i].0, entries[i].1);
            with_field(t2, at, field_of(rule, entries[i].0, ty))
        } else {
            t1
        }
    }
}

/// A new class, recorded inside a class of a well-formed table, leaves
/// the table well formed.
pub proof fn lemma_with_class_well_formed(t: Seq<ClassModel>, owner: int, name: Seq<char>)
    requires
        well_formed(t),
        0 <= owner < t.len(),
        t.len() <= usize::MAX,
    ensures
        well_formed(with_class(t, owner, name)),
{
    let r = with_class(t, owner, name);
    assert forall|i: int| 0 <= i < r.len() implies #[trigger] class_well_formed(r, i) by {
        if i < t.len() {
            assert(class_well_formed(t, i));
            assert(r[i].fields == t[i].fields);
            assert forall|k: int| 0 <= k < r[i].fields.len() implies type_refs_within(
                #[trigger] r[i].fields[k].field_type,
                i,
                r.len() as int,
            ) by {
                lemma_refs_widen(t[i].fields[k].field_type, i, t.len() as int, i, r.len() as int);
            }
            assert forall|k: int| 0 <= k < r[i].children.len() implies i
                < #[trigger] r[i].children[k] < r.len() by {
                if k < t[i].children.len() {
                    assert(r[i].children[k] == t[i].children[k]);
                }
            }
        }
    }
}

/// A new field that refers only to classes behind its own leaves the
/// table well formed.
pub proof fn lemma_with_field_well_formed(t: Seq<ClassModel>, at: int, field: FieldModel)
    requires
        well_formed(t),
        0 <= at < t.len(),
        type_refs_within(field.field_type, at, t.len() as int),
    ensures
        well_formed(with_field(t, at, field)),
{
    let r = with_field(t, at, field);
    assert forall|i: int| 0 <= i < r.len() implies #[trigger] class_well_formed(r, i) by {
        assert(class_well_formed(t, i));
        assert(r[i].children == t[i].children);
        assert forall|k: int| 0 <= k < r[i].fields.len() implies type_refs_within(
            #[trigger] r[i].fields[k].field_type,
            i,
            r.len() as int,
        ) by {
            if i != at || k < t[i].fields.len() {
                assert(r[i].fields[k] == t[i].fields[k]);
            }
        }
    }
}

/// For every key of the object the index of its last occurrence, the
/// keys in the order in which they first occur.
pub fn last_occurrences(entries: &Vec<(String, JsonValue)>) -> (slots: Vec<usize>)
    ensures
        slots@ == object_slots(entry_models(entries@)),
        forall|p: int| 0 <= p < slots.len() ==> #[trigger] slots[p] < entries.len(),
{
    let ghost em = entry_models(entries@);
    let mut slots: Vec<usize> = Vec::new();
    let mut i: usize = 0;
    while i < entries.len()
        invariant
            i <= entries.len(),
            em == entry_models(entries@),
            slots@ == key_slots(em, i as nat),
            forall|p: int| 0 <= p < slots.len() ==> #[trigger] slots[p] < i,
        decreases entries.len() - i,
    {
        let mut found: Option<usize> = None;
        let mut p: usize = 0;
        assert(slots@.take(0) =~= Seq::empty());
        while p < slots.len()
            invariant
                p <= slots.len(),
                i < entries.len(),
                em == entry_models(entries@),
                forall|q: int| 0 <= q < slots.len() ==> #[trigger] slots[q] < i,
                match found {
                    Some(q) => q == slot_of(em, slots@.take(p as int), em[i as int].0),
                    None => slot_of(em, slots@.take(p as int), em[i as int].0) == -1,
                },
            decreases slots.len() - p,
        {
            proof {
                assert(slots@.take(p + 1).drop_last() =~= slots@.take(p as int));
                assert(slots@.take(p + 1).last() == slots[p as int]);
            }
            if found.is_none() && entries[slots[p]].0 == entries[i].0 {
                found = Some(p);
            }
            p += 1;
        }
        assert(slots@.take(p as int) =~= slots@);
        match found {
            Some(q) => {
                proof {
                    lemma_slot_of(em, slots@, em[i as int].0);
                }
                slots[q] = i;
            },
            None => {
                slots.push(i);
            },
        }
        i += 1;
    }
    slots
}

/// The field for a key and the type of its value.
pub fn make_field(rule: NamingRule, key: &str, ty: FieldType) -> (field: Field)
    ensures
        field@ == field_of(rule, key@, ty),
{
    let identifier = to_legal_case(key, Case::Camel);
    let wire = to_case(key, Case::from(rule));
    let wire_name = if identifier == wire {
        None
    } else {
        Some(key.to_owned())
    };
    Field { key: key.to_owned(), identifier, wire_name, field_type: ty }
}

/// The type of the items of an array, given the type of each.
pub fn common_type(classes: &Vec<ClassDefinition>, owner: usize, types: &Vec<FieldType>) -> (ty:
    FieldType)
    requires
        well_formed(class_models(classes@)),
        forall|k: int|
            0 <= k < types.len() ==> type_refs_within(
                #[trigger] types[k],
                owner as int,
                classes.len() as int,
            ),
    ensures
        ty == item_type(class_models(classes@), owner as int, types@),
        type_refs_within(ty, owner as int, classes.len() as int),
{
    if types.len() == 0 {
        return FieldType::Dynamic;
    }
    let ghost t = class_models(classes@);
    let mut k: usize = 1;
    while k < types.len()
        invariant
            1 <= k <= types.len(),
            t == class_models(classes@),
            well_formed(t),
            forall|m: int|
                0 <= m < types.len() ==> type_refs_within(
                    #[trigger] types[m],
                    owner as int,
                    classes.len() as int,
                ),
            forall|m: int|
                0 <= m < k ==> type_shape(t, owner as int, #[trigger] types[m]) == type_shape(
                    t,
                    owner as int,
                    types[0],
                ),
        decreases types.len() - k,
    {
        if !same_type(classes, owner, &types[0], owner, &types[k]) {
            return FieldType::Dynamic;
        }
        k += 1;
    }
    types[0].duplicate()
}

impl DartClassGenerator {
    /// Classifies the value found under `key` in class `owner`.
    pub(crate) fn classify(&mut self, owner: usize, key: &str, value: &JsonValue) -> (ty:
        FieldType)
        requires
            well_formed(old(self).table()),
            owner < old(self).table().len(),
        ensures
            final(self).table() == classified(
                old(self).table(),
                old(self).rule(),
                owner as int,
                key@,
                value@,
            ).0,
            ty == classified(old(self).table(), old(self).rule(), owner as int, key@, value@).1,
            final(self).rule() == old(self).rule(),
            well_formed(final(self).table()),
            final(self).table().len() >= old(self).table().len(),
            type_refs_within(ty, owner as int, final(self).table().len() as int),
        decreases value,
    {
        match value {
            JsonValue::Null => FieldType::Dynamic,
            JsonValue::Boolean(_) => FieldType::Boolean,
            JsonValue::Number { is_i64, is_f64 } => {
                if *is_i64 {
                    FieldType::Integer
                } else if *is_f64 {
                    FieldType::Double
                } else {
                    FieldType::Dynamic
                }
            },
            JsonValue::Text(_) => FieldType::Text,
            JsonValue::Array(items) => {
                proof {
                    lemma_array_view(*items);
                }
                let types = self.classify_items(owner, key, items);
                let ty = common_type(self.classes(), owner, &types);
                FieldType::List(Box::new(ty))
            },
            JsonValue::Object(entries) => {
                let count = self.classes().len();
                proof {
                    assert(self.table().len() == count);
                    lemma_object_view(*entries);
                    lemma_with_class_well_formed(
                        self.table(),
                        owner as int,
                        legal_text(key@, Case::Pascal),
                    );
                }
                let name = to_legal_case(key, Case::Pascal);
                let child = self.add_class(owner, name);
                self.fill(child, entries);
                FieldType::Class(child)
            },
        }
    }

    /// Classifies the items of an array found under `key` in class
    /// `owner`, in turn.
    pub(crate) fn classify_items(
        &mut self,
        owner: usize,
        key: &str,
        items: &Vec<JsonValue>,
    ) -> (types: Vec<FieldType>)
        requires
            well_formed(old(self).table()),
            owner < old(self).table().len(),
        ensures
            final(self).table() == classified_items(
                old(self).table(),
                old(self).rule(),
                owner as int,
                key@,
                item_models(items@),
                items.len() as nat,
            ).0,
            types@ == classified_items(
                old(self).table(),
                old(self).rule(),
                owner as int,
                key@,
                item_models(items@),
                items.len() as nat,
            ).1,
            final(self).rule() == old(self).rule(),
            well_formed(final(self).table()),
            final(self).table().len() >= old(self).table().len(),
            forall|k: int|
                0 <= k < types.len() ==> type_refs_within(
                    #[trigger] types[k],
                    owner as int,
                    final(self).table().len() as int,
                ),
        decreases items,
    {
        let ghost t0 = self.table();
        let ghost rule = self.rule();
        let ghost im = item_models(items@);
        let mut types: Vec<FieldType> = Vec::new();
        let mut i: usize = 0;
        while i < items.len()
            invariant
                i <= items.len(),
                im == item_models(items@),
                well_formed(self.table()),
                self.rule() == rule,
                owner < t0.len() <= self.table().len(),
                self.table() == classified_items(t0, rule, owner as int, key@, im, i as nat).0,
                types@ == classified_items(t0, rule, owner as int, key@, im, i as nat).1,
                forall|k: int|
                    0 <= k < types.len() ==> type_refs_within(
                        #[trigger] types[k],
                        owner as int,
                        self.table().len() as int,
                    ),
            decreases items.len() - i,
        {
            let ghost before = self.table().len() as int;
            let ty = self.classify(owner, key, &items[i]);
            proof {
                assert(im[i as int] == items[i as int]@);
                assert forall|k: int| 0 <= k < types.len() implies type_refs_within(
                    #[trigger] types[k],
                    owner as int,
                    self.table().len() as int,
                ) by {
                    lemma_refs_widen(
                        types[k],
                        owner as int,
                        before,
                        owner as int,
                        self.table().len() as int,
                    );
                }
            }
            types.push(ty);
            i += 1;
        }
        types
    }

    /// Gives class `at` a field for every key of the object.
    pub(crate) fn fill(&mut self, at: usize, entries: &Vec<(String, JsonValue)>)
        requires
            well_formed(old(self).table()),
            at < old(self).table().len(),
        ensures
            final(self).table() == filled(
                old(self).table(),
                old(self).rule(),
                at as int,
                entry_models(entries@),
                object_slots(entry_models(entries@)),
                object_slots(entry_models(entries@)).len(),
            ),
            final(self).rule() == old(self).rule(),
            well_formed(final(self).table()),
            final(self).table().len() >= old(self).table().len(),
        decreases entries,
    {
        let ghost t0 = self.table();
        let ghost rule = self.rule();
        let ghost em = entry_models(entries@);
        let slots = last_occurrences(entries);
        let mut p: usize = 0;
        while p < slots.len()
            invariant
                p <= slots.len(),
                em == entry_models(entries@),
                slots@ == object_slots(em),
                forall|q: int| 0 <= q < slots.len() ==> #[trigger] slots[q] < entries.len(),
                well_formed(self.table()),
                self.rule() == rule,
                at < t0.len() <= self.table().len(),
                self.table() == filled(t0, rule, at as int, em, slots@, p as nat),
            decreases slots.len() - p,
        {
            let i = slots[p];
            let key = entries[i].0.as_str();
            let ty = self.classify(at, key, &entries[i].1);
            let field = make_field(self.naming_rule(), key, ty);
            proof {
                assert(em[i as int] == (entries[i as int].0@, entries[i as int].1@));
                lemma_with_field_well_formed(self.table(), at as int, field@);
            }
            self.add_field(at, field);
            p += 1;
        }
    }
}

/// Why no classes can be generated from the value found under `key`, if
/// anything stands against it: the first, in the order of the document,
/// of a number that is kept neither as a 64-bit integer nor as a double,
/// an object under a key without a class name, and a key without an
/// identifier.
pub open spec fn defect(key: Seq<char>, json: Json) -> Option<ClassError>
    decreases json, 0nat,
{
    match json {
        Json::Number { is_i64, is_f64 } => if !is_i64 && !is_f64 {
            Some(ClassError::UnclassifiableNumber)
        } else {
            None
        },
        Json::Array(items) => defect_in_items(key, items, items.len()),
        Json::Object(entries) => if legal_text(key, Case::Pascal).len() == 0 {
            Some(ClassError::EmptyLegalizedIdentifier)
        } else {
            defect_in_entries(entries, object_slots(entries), object_slots(entries).len())
        },
        _ => None,
    }
}

/// The first defect among the first `n` items of an array under `key`.
pub open spec fn defect_in_items(key: Seq<char>, items: Seq<Json>, n: nat) -> Option<ClassError>
    decreases items, n,
{
    if n == 0 || n > items.len() {
        None
    } else {
        match defect_in_items(key, items, (n - 1) as nat) {
            Some(e) => Some(e),
            None => defect(key, items[n - 1]),
        }
    }
}

/// The first defect among the first `n` of the given entries of an
/// object: a key that leaves no identifier, or a defect of its value.
pub open spec fn defect_in_entries(
    entries: Seq<(Seq<char>, Json)>,
    slots: Seq<usize>,
    n: nat,
) -> Option<ClassError>
    decreases entries, n,
{
    if n == 0 || n > slots.len() {
        None
    } else {
        match defect_in_entries(entries, slots, (n - 1) as nat) {
            Some(e) => Some(e),
            None => {
                let i = slots[n - 1] as int;
                if 0 <= i < entries.len() {
                    if legal_text(entries[i].0, Case::Camel).len() == 0 {
                        Some(ClassError::EmptyLegalizedIdentifier)
                    } else {
                        defect(entries[i].0, entries[i].1)
                    }
                } else {
                    None
                }
            },
        }
    }
}

/// The first defect among the entries of an object, each key taken once.
pub open spec fn defect_in_object(entries: Seq<(Seq<char>, Json)>) -> Option<ClassError> {
    defect_in_entries(entries, object_slots(entries), object_slots(entries).len())
}

/// Looks for what stands against generating classes from the value found
/// under `key`.
pub fn find_defect(key: &str, value: &JsonValue) -> (found: Option<ClassError>)
    ensures
        found == defect(key@, value@),
    decreases value,
{
    match value {
        JsonValue::Number { is_i64, is_f64 } => {
            if !*is_i64 && !*is_f64 {
                Some(ClassError::UnclassifiableNumber)
            } else {
                None
            }
        },
        JsonValue::Array(items) => {
            proof {
                lemma_array_view(*items);
            }
            find_defect_in_items(key, items)
        },
        JsonValue::Object(entries) => {
            proof {
                lemma_object_view(*entries);
            }
            let name = to_legal_case(key, Case::Pascal);
            if name.as_str().is_empty() {
                Some(ClassError::EmptyLegalizedIdentifier)
            } else {
                find_defect_in_object(entries)
            }
        },
        _ => None,
    }
}

/// Looks for the first defect among the items of an array under `key`.
pub fn find_defect_in_items(key: &str, items: &Vec<JsonValue>) -> (found: Option<ClassError>)
    ensures
        found == defect_in_items(key@, item_models(items@), items.len() as nat),
    decreases items,
{
    let ghost im = item_models(items@);
    let mut found: Option<ClassError> = None;
    let mut i: usize = 0;
    while i < items.len()
        invariant
            i <= items.len(),
            im == item_models(items@),
            found == defect_in_items(key@, im, i as nat),
        decreases items.len() - i,
    {
        if found.is_none() {
            found = find_defect(key, &items[i]);
        }
        i += 1;
    }
    found
}

/// Looks for the first defect among the entries of an object.
pub fn find_defect_in_object(entries: &Vec<(String, JsonValue)>) -> (found: Option<ClassError>)
    ensures
        found == defect_in_object(entry_models(entries@)),
    decreases entries,
{
    let ghost em = entry_models(entries@);
    let slots = last_occurrences(entries);
    let mut found: Option<ClassError> = None;
    let mut p: usize = 0;
    while p < slots.len()
        invariant
            p <= slots.len(),
            em == entry_models(entries@),
            slots@ == object_slots(em),
            forall|q: int| 0 <= q < slots.len() ==> #[trigger] slots[q] < entries.len(),
            found == defect_in_entries(em, slots@, p as nat),
        decreases slots.len() - p,
    {
        if found.is_none() {
            let i = slots[p];
            let key = entries[i].0.as_str();
            assert(em[i as int] == (entries[i as int].0@, entries[i as int].1@));
            let identifier = to_legal_case(key, Case::Camel);
            if identifier.as_str().is_empty() {
                found = Some(ClassError::EmptyLegalizedIdentifier);
            } else {
                found = find_defect(key, &entries[i].1);
            }
        }
        p += 1;
    }
    found
}

/// Why no classes can be generated from a document whose root class has
/// the given name. The entries of an object at the root are fields of
/// the root class; any other value is read as if it stood under the name
/// of the root class.
pub open spec fn document_defect(root_name: Seq<char>, json: Json) -> Option<ClassError> {
    match json {
        Json::Object(entries) => defect_in_object(entries),
        _ => defect(root_name, json),
    }
}

/// The table after a document has been read into it, and the type of the
/// document. An object at the root gives the root class its fields, and
/// its type is the root class.
pub open spec fn document_read(t: Seq<ClassModel>, rule: NamingRule, json: Json) -> (
    Seq<ClassModel>,
    FieldType,
) {
    match json {
        Json::Object(entries) => (
            filled(t, rule, 0, entries, object_slots(entries), object_slots(entries).len()),
            FieldType::Class(0),
        ),
        _ => classified(t, rule, 0, t[0].name, json),
    }
}

impl DartClassGenerator {
    /// Reads a document into the table and returns its type, or refuses
    /// it as a whole and leaves the table as it was.
    pub fn parse_value(&mut self, value: &JsonValue) -> (out: Result<FieldType, ClassError>)
        requires
            old(self).wf(),
        ensures
            match document_defect(old(self).table()[0].name, value@) {
                Some(e) => {
                    &&& out == Err::<FieldType, ClassError>(e)
                    &&& final(self).table() == old(self).table()
                },
                None => {
                    &&& out == Ok::<FieldType, ClassError>(
                        document_read(old(self).table(), old(self).rule(), value@).1,
                    )
                    &&& final(self).table() == document_read(
                        old(self).table(),
                        old(self).rule(),
                        value@,
                    ).0
                },
            },
            final(self).rule() == old(self).rule(),
            final(self).wf(),
            out matches Ok(ty) ==> type_refs_within(ty, -1, final(self).table().len() as int),
    {
        match value {
            JsonValue::Object(entries) => {
                proof {
                    lemma_object_view(*entries);
                }
                self.parse_object(entries)
            },
            JsonValue::Array(items) => {
                proof {
                    lemma_array_view(*items);
                }
                self.parse_array(items)
            },
            _ => {
                let name = self.classes()[0].class_name.clone();
                match find_defect(name.as_str(), value) {
                    Some(e) => Err(e),
                    None => {
                        let ty = self.classify(0, name.as_str(), value);
                        proof {
                            let len = self.table().len() as int;
                            lemma_refs_widen(ty, 0, len, -1, len);
                        }
                        Ok(ty)
                    },
                }
            },
        }
    }

    /// Reads an array at the root of a document: classifies its items in
    /// the root class, under the name of the root class, and returns the
    /// type of the array; or refuses it and leaves the table as it was.
    pub fn parse_array(&mut self, value: &Vec<JsonValue>) -> (out: Result<FieldType, ClassError>)
        requires
            old(self).wf(),
        ensures
            match defect(old(self).table()[0].name, Json::Array(item_models(value@))) {
                Some(e) => {
                    &&& out == Err::<FieldType, ClassError>(e)
                    &&& final(self).table() == old(self).table()
                },
                None => {
                    &&& out == Ok::<FieldType, ClassError>(
                        classified(
                            old(self).table(),
                            old(self).rule(),
                            0,
                            old(self).table()[0].name,
                            Json::Array(item_models(value@)),
                        ).1,
                    )
                    &&& final(self).table() == classified(
                        old(self).table(),
                        old(self).rule(),
                        0,
                        old(self).table()[0].name,
                        Json::Array(item_models(value@)),
                    ).0
                },
            },
            final(self).rule() == old(self).rule(),
            final(self).wf(),
            out matches Ok(ty) ==> type_refs_within(ty, -1, final(self).table().len() as int),
    {
        let ghost t0 = self.table();
        let name = self.classes()[0].class_name.clone();
        match find_defect_in_items(name.as_str(), value) {
            Some(e) => Err(e),
            None => {
                let types = self.classify_items(0, name.as_str(), value);
                let ty = common_type(self.classes(), 0, &types);
                proof {
                    let len = self.table().len() as int;
                    lemma_refs_widen(ty, 0, len, -1, len);
                    lemma_classified_in_order(
                        t0,
                        self.rule(),
                        0,
                        name@,
                        Json::Array(item_models(value@)),
                    );
                }
                Ok(FieldType::List(Box::new(ty)))
            },
        }
    }

    /// Reads an object at the root of a document: gives the root class a
    /// field for every key, in the order in which the keys first occur
    /// and each with the type of its last value, and returns the type
    /// that refers to the root class; or refuses the object and leaves
    /// the table as it was.
    pub fn parse_object(&mut self, obj: &Vec<(String, JsonValue)>) -> (out: Result<
        FieldType,
        ClassError,
    >)
        requires
            old(self).wf(),
        ensures
            match defect_in_object(entry_models(obj@)) {
                Some(e) => {
                    &&& out == Err::<FieldType, ClassError>(e)
                    &&& final(self).table() == old(self).table()
                },
                None => {
                    &&& out == Ok::<FieldType, ClassError>(FieldType::Class(0))
                    &&& final(self).table() == filled(
                        old(self).table(),
                        old(self).rule(),
                        0,
                        entry_models(obj@),
                        object_slots(entry_models(obj@)),
                        object_slots(entry_models(obj@)).len(),
                    )
                },
            },
            final(self).rule() == old(self).rule(),
            final(self).wf(),
            out matches Ok(ty) ==> type_refs_within(ty, -1, final(self).table().len() as int),
    {
        let ghost t0 = self.table();
        match find_defect_in_object(obj) {
            Some(e) => Err(e),
            None => {
                self.fill(0, obj);
                let count = self.classes().len();
                proof {
                    let em = entry_models(obj@);
                    assert(self.table().len() == count);
                    lemma_filled_in_order(
                        t0,
                        self.rule(),
                        0,
                        em,
                        object_slots(em),
                        object_slots(em).len(),
                    );
                }
                Ok(FieldType::Class(0))
            },
        }
    }
}

} // verus!
