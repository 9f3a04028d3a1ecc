//! What reading a document guarantees of the order of the fields and of
//! the classes that were there before.
use vstd::prelude::*;
use crate::generators::{Case, NamingRule, legal_text};
use crate::generators::class_builder::{
    classified, classified_items, document_defect, document_read, field_of, filled, key_slots,
    object_slots, slot_of,
};
use crate::generators::class_model::{ClassModel, FieldModel};
use crate::generators::class_namer::finalized;
use crate::generators::dart_generator::{with_class, with_field};
use crate::generators::dart_source::document_text;
use crate::json::{Json, JsonValue};

verus! {

/// The index of the first of the first `n` entries that has `key`, or -1.
pub open spec fn first_index(entries: Seq<(Seq<char>, Json)>, key: Seq<char>, n: nat) -> int
    decreases n,
{
    if n == 0 {
        -1
    } else {
        let before = first_index(entries, key, (n - 1) as nat);
        if before >= 0 {
            before
        } else if entries[n - 1].0 == key {
            n - 1
        } else {
            -1
        }
    }
}

/// `first_index` finds an entry with the key, before which none has it,
/// or finds none where no entry has it.
pub proof fn lemma_first_index(entries: Seq<(Seq<char>, Json)>, key: Seq<char>, n: nat)
    ensures
        -1 <= first_index(entries, key, n) < n,
        first_index(entries, key, n) >= 0 ==> entries[first_index(entries, key, n)].0 == key,
        forall|j: int|
            0 <= j < n && (#[trigger] entries[j]).0 == key ==> 0 <= first_index(entries, key, n)
                <= j,
    decreases n,
{
    if n > 0 {
        lemma_first_index(entries, key, (n - 1) as nat);
    }
}

/// `slot_of` finds a slot whose entry has the key, or finds none where
/// no slot's entry has it.
pub proof fn lemma_slot_of(entries: Seq<(Seq<char>, Json)>, slots: Seq<usize>, key: Seq<char>)
    ensures
        -1 <= slot_of(entries, slots, key) < slots.len(),
        slot_of(entries, slots, key) >= 0 ==> entries[slots[slot_of(entries, slots, key)] as int].0
            == key,
        slot_of(entries, slots, key) == -1 ==> forall|p: int|
            0 <= p < slots.len() ==> entries[#[trigger] slots[p] as int].0 != key,
    decreases slots.len(),
{
    if slots.len() > 0 {
        let init = slots.drop_last();
        lemma_slot_of(entries, init, key);
        let p = slot_of(entries, slots, key);
        if slot_of(entries, init, key) >= 0 {
            assert(init[p] == slots[p]);
        }
        if p == -1 {
            assert forall|q: int| 0 <= q < slots.len() implies entries[#[trigger] slots[q] as int].0
                != key by {
                if q < init.len() {
                    assert(init[q] == slots[q]);
                }
            }
        }
    }
}

/// What holds of the slots that the first `n` entries of an object
/// leave: every key that occurs among those entries has one slot, which
/// is its last occurrence, and the slots stand in the order in which
/// their keys first occur.
pub open spec fn slots_hold(entries: Seq<(Seq<char>, Json)>, n: nat, slots: Seq<usize>) -> bool {
    &&& forall|p: int| 0 <= p < slots.len() ==> #[trigger] slots[p] < n
    &&& forall|p: int, j: int|
        0 <= p < slots.len() && slots[p] < j < n ==> (#[trigger] entries[j]).0
            != entries[#[trigger] slots[p] as int].0
    &&& forall|p: int, q: int|
        0 <= p < q < slots.len() ==> entries[#[trigger] slots[p] as int].0
            != entries[#[trigger] slots[q] as int].0
    &&& forall|j: int|
        0 <= j < n ==> 0 <= slot_of(entries, slots, (#[trigger] entries[j]).0)
    &&& forall|p: int, q: int|
        0 <= p < q < slots.len() ==> first_index(entries, entries[#[trigger] slots[p] as int].0, n)
            < first_index(entries, entries[#[trigger] slots[q] as int].0, n)
}

/// The slots of an object name every key once, each at its last
/// occurrence, in the order in which the keys first occur.
pub proof fn lemma_key_slots(entries: Seq<(Seq<char>, Json)>, n: nat)
    requires
        n <= entries.len() <= usize::MAX,
    ensures
        slots_hold(entries, n, key_slots(entries, n)),
    decreases n,
{
    if n > 0 {
        let m = (n - 1) as nat;
        lemma_key_slots(entries, m);
        let before = key_slots(entries, m);
        let key = entries[m as int].0;
        let p = slot_of(entries, before, key);
        let slots = key_slots(entries, n);
        lemma_slot_of(entries, before, key);
        assert forall|x: int| 0 <= x < before.len() implies first_index(
            entries,
            entries[#[trigger] before[x] as int].0,
            n,
        ) == first_index(entries, entries[before[x] as int].0, m) && 0 <= first_index(
            entries,
            entries[before[x] as int].0,
            m,
        ) < m by {
            lemma_first_index(entries, entries[before[x] as int].0, m);
            assert(before[x] < m);
            assert(entries[before[x] as int].0 == entries[before[x] as int].0);
        }
        if p >= 0 {
            assert(slots == before.update(p, m as usize));
            assert forall|x: int| 0 <= x < slots.len() implies entries[#[trigger] slots[x] as int].0
                == entries[before[x] as int].0 by {}
            assert forall|x: int, j: int| 0 <= x < slots.len() && slots[x] < j < n implies (
            #[trigger] entries[j]).0 != entries[#[trigger] slots[x] as int].0 by {
                if x != p {
                    if j == m {
                        if x < p {
                            assert(entries[before[x] as int].0 != entries[before[p] as int].0);
                        } else {
                            assert(entries[before[p] as int].0 != entries[before[x] as int].0);
                        }
                    } else {
                        assert(before[x] < j < m);
                    }
                }
            }
            assert forall|x: int, y: int| 0 <= x < y < slots.len() implies entries[
            #[trigger] slots[x] as int].0 != entries[#[trigger] slots[y] as int].0 by {
                assert(entries[before[x] as int].0 != entries[before[y] as int].0);
            }
            assert forall|j: int| 0 <= j < n implies 0 <= slot_of(
                entries,
                slots,
                (#[trigger] entries[j]).0,
            ) by {
                lemma_slot_of(entries, slots, entries[j].0);
                if slot_of(entries, slots, entries[j].0) == -1 {
                    if j == m {
                        assert(entries[slots[p] as int].0 != key);
                    } else {
                        let x = slot_of(entries, before, entries[j].0);
                        lemma_slot_of(entries, before, entries[j].0);
                        assert(entries[slots[x] as int].0 != entries[j].0);
                    }
                }
            }
            assert forall|x: int, y: int| 0 <= x < y < slots.len() implies first_index(
                entries,
                entries[#[trigger] slots[x] as int].0,
                n,
            ) < first_index(entries, entries[#[trigger] slots[y] as int].0, n) by {
                assert(first_index(entries, entries[before[x] as int].0, m) < first_index(
                    entries,
                    entries[before[y] as int].0,
                    m,
                ));
            }
        } else {
            assert(slots == before.push(m as usize));
            assert forall|j: int| 0 <= j < m implies (#[trigger] entries[j]).0 != key by {
                let x = slot_of(entries, before, entries[j].0);
                lemma_slot_of(entries, before, entries[j].0);
                assert(entries[before[x] as int].0 != key);
            }
            lemma_first_index(entries, key, m);
            assert(first_index(entries, key, m) == -1);
            assert(first_index(entries, key, n) == m);
            assert forall|x: int, j: int| 0 <= x < slots.len() && slots[x] < j < n implies (
            #[trigger] entries[j]).0 != entries[#[trigger] slots[x] as int].0 by {
                if x < before.len() {
                    assert(slots[x] == before[x]);
                    if j == m {
                        assert(entries[before[x] as int].0 != key);
                    } else {
                        assert(before[x] < j < m);
                    }
                }
            }
            assert forall|x: int, y: int| 0 <= x < y < slots.len() implies entries[
            #[trigger] slots[x] as int].0 != entries[#[trigger] slots[y] as int].0 by {
                assert(slots[x] == before[x]);
                if y < before.len() {
                    assert(slots[y] == before[y]);
                    assert(entries[before[x] as int].0 != entries[before[y] as int].0);
                } else {
                    assert(entries[before[x] as int].0 != key);
                }
            }
            assert forall|j: int| 0 <= j < n implies 0 <= slot_of(
                entries,
                slots,
                (#[trigger] entries[j]).0,
            ) by {
                lemma_slot_of(entries, slots, entries[j].0);
                if slot_of(entries, slots, entries[j].0) == -1 {
                    if j == m {
                        assert(entries[slots[before.len() as int] as int].0 != key);
                    } else {
                        let x = slot_of(entries, before, entries[j].0);
                        lemma_slot_of(entries, before, entries[j].0);
                        assert(slots[x] == before[x]);
                        assert(entries[slots[x] as int].0 != entries[j].0);
                    }
                }
            }
            assert forall|x: int, y: int| 0 <= x < y < slots.len() implies first_index(
                entries,
                entries[#[trigger] slots[x] as int].0,
                n,
            ) < first_index(entries, entries[#[trigger] slots[y] as int].0, n) by {
                assert(slots[x] == before[x]);
                if y < before.len() {
                    assert(slots[y] == before[y]);
                    assert(first_index(entries, entries[before[x] as int].0, m) < first_index(
                        entries,
                        entries[before[y] as int].0,
                        m,
                    ));
                }
            }
        }
    }
}

/// The table `r` has grown out of `t` by work inside class `owner`: every
/// class of `t` is still there, and but for what was found inside
/// `owner`, which `owner` records, no class of `t` has changed.
pub open spec fn grown_inside(t: Seq<ClassModel>, r: Seq<ClassModel>, owner: int) -> bool {
    &&& r.len() >= t.len()
    &&& forall|i: int| 0 <= i < t.len() && i != owner ==> #[trigger] r[i] == t[i]
    &&& r[owner].name == t[owner].name
    &&& r[owner].fields == t[owner].fields
}

/// Classifying a value inside a class changes no class that was there
/// before, and gives the class no field.
pub proof fn lemma_classified_grows(
    t: Seq<ClassModel>,
    rule: NamingRule,
    owner: int,
    key: Seq<char>,
    json: Json,
)
    requires
        0 <= owner < t.len(),
    ensures
        grown_inside(t, classified(t, rule, owner, key, json).0, owner),
    decreases json, 0nat,
{
    match json {
        Json::Array(items) => {
            lemma_classified_items_grow(t, rule, owner, key, items, items.len());
        },
        Json::Object(entries) => {
            let name = legal_text(key, Case::Pascal);
            let t1 = with_class(t, owner, name);
            let slots = object_slots(entries);
            lemma_filled_keeps(t1, rule, t.len() as int, entries, slots, slots.len());
            let r = filled(t1, rule, t.len() as int, entries, slots, slots.len());
            assert forall|i: int| 0 <= i < t.len() && i != owner implies #[trigger] r[i]
                == t[i] by {
                assert(r[i] == t1[i]);
            }
            assert(r[owner] == t1[owner]);
        },
        _ => {},
    }
}

/// Classifying the items of an array inside a class changes no class that
/// was there before, and gives the class no field.
pub proof fn lemma_classified_items_grow(
    t: Seq<ClassModel>,
    rule: NamingRule,
    owner: int,
    key: Seq<char>,
    items: Seq<Json>,
    n: nat,
)
    requires
        0 <= owner < t.len(),
    ensures
        grown_inside(t, classified_items(t, rule, owner, key, items, n).0, owner),
    decreases items, n,
{
    if !(n == 0 || n > items.len()) {
        lemma_classified_items_grow(t, rule, owner, key, items, (n - 1) as nat);
        let t1 = classified_items(t, rule, owner, key, items, (n - 1) as nat).0;
        lemma_classified_grows(t1, rule, owner, key, items[n - 1]);
        let t2 = classified(t1, rule, owner, key, items[n - 1]).0;
        assert forall|i: int| 0 <= i < t.len() && i != owner implies #[trigger] t2[i]
            == t[i] by {
            assert(t2[i] == t1[i]);
        }
    }
}

/// Giving a class fields changes no other class that was there before.
pub proof fn lemma_filled_keeps(
    t: Seq<ClassModel>,
    rule: NamingRule,
    at: int,
    entries: Seq<(Seq<char>, Json)>,
    slots: Seq<usize>,
    n: nat,
)
    requires
        0 <= at < t.len(),
    ensures
        ({
            let r = filled(t, rule, at, entries, slots, n);
            &&& r.len() >= t.len()
            &&& forall|i: int| 0 <= i < t.len() && i != at ==> #[trigger] r[i] == t[i]
        }),
    decreases entries, n,
{
    if !(n == 0 || n > slots.len()) {
        let m = (n - 1) as nat;
        lemma_filled_keeps(t, rule, at, entries, slots, m);
        let t1 = filled(t, rule, at, entries, slots, m);
        let i = slots[m as int] as int;
        if 0 <= i < entries.len() {
            lemma_classified_grows(t1, rule, at, entries[i].0, entries[i].1);
            let t2 = classified(t1, rule, at, entries[i].0, entries[i].1).0;
            let r = filled(t, rule, at, entries, slots, n);
            assert forall|x: int| 0 <= x < t.len() && x != at implies #[trigger] r[x]
                == t[x] by {
                assert(t2[x] == t1[x]);
            }
        }
    }
}

/// The fields that class `at` has after it has received one for each of
/// the first `n` of the given entries: those it had, followed by one for
/// each entry, in the order of the entries. No other class that was
/// there before has changed.
pub proof fn lemma_filled_grows(
    t: Seq<ClassModel>,
    rule: NamingRule,
    at: int,
    entries: Seq<(Seq<char>, Json)>,
    slots: Seq<usize>,
    n: nat,
)
    requires
        0 <= at < t.len(),
        n <= slots.len(),
        forall|p: int| 0 <= p < slots.len() ==> #[trigger] slots[p] < entries.len(),
    ensures
        ({
            let r = filled(t, rule, at, entries, slots, n);
            &&& r.len() >= t.len()
            &&& forall|i: int| 0 <= i < t.len() && i != at ==> #[trigger] r[i] == t[i]
            &&& r[at].name == t[at].name
            &&& r[at].fields.len() == t[at].fields.len() + n
            &&& forall|k: int|
                0 <= k < t[at].fields.len() ==> #[trigger] r[at].fields[k] == t[at].fields[k]
            &&& forall|p: int|
                0 <= p < n ==> #[trigger] r[at].fields[t[at].fields.len() + p] == field_at(
                    t,
                    rule,
                    at,
                    entries,
                    slots,
                    p,
                )
        }),
    decreases n,
{
    if n > 0 {
        let m = (n - 1) as nat;
        lemma_filled_grows(t, rule, at, entries, slots, m);
        let t1 = filled(t, rule, at, entries, slots, m);
        let i = slots[m as int] as int;
        assert(0 <= i < entries.len());
        lemma_classified_grows(t1, rule, at, entries[i].0, entries[i].1);
        let t2 = classified(t1, rule, at, entries[i].0, entries[i].1).0;
        let r = filled(t, rule, at, entries, slots, n);
        let base = t[at].fields.len();
        assert(r == with_field(t2, at, field_at(t, rule, at, entries, slots, m as int)));
        assert forall|x: int| 0 <= x < t.len() && x != at implies #[trigger] r[x] == t[x] by {
            assert(t2[x] == t1[x]);
        }
        assert forall|k: int| 0 <= k < base implies #[trigger] r[at].fields[k]
            == t[at].fields[k] by {
            assert(t1[at].fields[k] == t[at].fields[k]);
        }
        assert forall|p: int| 0 <= p < n implies #[trigger] r[at].fields[base + p] == field_at(
            t,
            rule,
            at,
            entries,
            slots,
            p,
        ) by {
            if p < m {
                assert(t1[at].fields[base + p] == field_at(t, rule, at, entries, slots, p));
            }
        }
    }
}

/// The field that class `at` receives for the entry in slot `p`: the
/// field of the entry's key and of the type that its value is classified
/// as, after the fields for the slots before it.
pub open spec fn field_at(
    t: Seq<ClassModel>,
    rule: NamingRule,
    at: int,
    entries: Seq<(Seq<char>, Json)>,
    slots: Seq<usize>,
    p: int,
) -> FieldModel {
    let i = slots[p] as int;
    field_of(
        rule,
        entries[i].0,
        classified(
            filled(t, rule, at, entries, slots, p as nat),
            rule,
            at,
            entries[i].0,
            entries[i].1,
        ).1,
    )
}

/// The order of the fields is the order in which the keys of the object
/// first occur: the class keeps the fields it had and receives, for
/// every key of the object, one field, typed by the last value of the
/// key, the keys in the order in which they first occur.
pub proof fn lemma_fields_follow_keys(
    t: Seq<ClassModel>,
    rule: NamingRule,
    at: int,
    entries: Seq<(Seq<char>, Json)>,
)
    requires
        0 <= at < t.len(),
        entries.len() <= usize::MAX,
    ensures
        ({
            let slots = object_slots(entries);
            let r = filled(t, rule, at, entries, slots, slots.len());
            &&& slots_hold(entries, entries.len(), slots)
            &&& r[at].fields.len() == t[at].fields.len() + slots.len()
            &&& forall|k: int|
                0 <= k < t[at].fields.len() ==> #[trigger] r[at].fields[k] == t[at].fields[k]
            &&& forall|p: int|
                0 <= p < slots.len() ==> #[trigger] r[at].fields[t[at].fields.len() + p]
                    == field_at(t, rule, at, entries, slots, p)
            &&& forall|p: int|
                0 <= p < slots.len() ==> (#[trigger] r[at].fields[t[at].fields.len() + p]).key
                    == entries[slots[p] as int].0
        }),
{
    let slots = object_slots(entries);
    lemma_key_slots(entries, entries.len());
    lemma_filled_grows(t, rule, at, entries, slots, slots.len());
}

/// The classes generated from a document depend on nothing but what the
/// document holds, the table before and the naming rule: two runs on
/// documents that hold the same refuse both or give the same table, the
/// same classes to emit under the same names, and the same source text.
pub proof fn lemma_same_document_same_classes(
    t: Seq<ClassModel>,
    rule: NamingRule,
    a: JsonValue,
    b: JsonValue,
)
    requires
        a@ == b@,
    ensures
        document_defect(t[0].name, a@) == document_defect(t[0].name, b@),
        document_read(t, rule, a@) == document_read(t, rule, b@),
        finalized(document_read(t, rule, a@).0) == finalized(document_read(t, rule, b@).0),
        document_text(document_read(t, rule, a@).0, rule) == document_text(
            document_read(t, rule, b@).0,
            rule,
        ),
{
}

} // verus!
