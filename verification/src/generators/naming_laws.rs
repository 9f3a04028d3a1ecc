//! What the walk over the table guarantees of the names it gives and of
//! the classes it drops.
use vstd::prelude::*;
use crate::generators::class_model::{ClassModel, structurally_equal};
use crate::generators::class_namer::{
    SeenName, Walk, decimal, finalized, lemma_seen_at_range, seen_at, visited, walked,
};

verus! {

/// How many of the first `k` kept classes the document gave the name
/// `name`.
pub open spec fn occurrences(t: Seq<ClassModel>, kept: Seq<usize>, name: Seq<char>, k: nat) -> nat
    decreases k,
{
    if k == 0 || k > kept.len() {
        0
    } else {
        occurrences(t, kept, name, (k - 1) as nat) + if t[kept[k - 1] as int].name == name {
            1nat
        } else {
            0nat
        }
    }
}

/// The name of the class that is kept as number `r`, counted from 0,
/// among those that the document gave the name `name`.
pub open spec fn numbered(name: Seq<char>, r: nat) -> Seq<char> {
    if r == 0 {
        name
    } else {
        name + decimal(r)
    }
}

/// What the walk has remembered of a name is true of the table: the class
/// first seen under the name was given that name by the document, is
/// kept, and still has the name; and one more class of the name is kept
/// than the count says.
pub open spec fn entry_holds(t: Seq<ClassModel>, w: Walk, e: int) -> bool {
    let s = w.seen[e];
    &&& s.first < t.len()
    &&& s.name == t[s.first as int].name
    &&& w.classes[s.first as int].name == s.name
    &&& w.kept.contains(s.first)
    &&& s.count + 1 == occurrences(t, w.kept, s.name, w.kept.len())
}

/// What holds of the walk over the table `t` after `n` visits.
pub open spec fn walk_holds(t: Seq<ClassModel>, n: nat, w: Walk) -> bool {
    &&& w.classes.len() == t.len()
    &&& forall|c: int|
        0 <= c < t.len() ==> (#[trigger] w.classes[c]).fields == t[c].fields
            && w.classes[c].children == t[c].children
    &&& forall|k: int| 0 <= k < w.kept.len() ==> #[trigger] w.kept[k] < n
    &&& forall|c: int|
        0 <= c < t.len() && !w.kept.contains(c as usize) ==> (#[trigger] w.classes[c]).name
            == t[c].name
    &&& forall|k: int|
        0 <= k < w.kept.len() ==> w.classes[#[trigger] w.kept[k] as int].name == numbered(
            t[w.kept[k] as int].name,
            occurrences(t, w.kept, t[w.kept[k] as int].name, k as nat),
        )
    &&& forall|e: int| 0 <= e < w.seen.len() ==> #[trigger] entry_holds(t, w, e)
    &&& forall|name: Seq<char>|
        #[trigger] seen_at(w.seen, name) == -1 ==> occurrences(t, w.kept, name, w.kept.len())
            == 0
    &&& forall|e1: int, e2: int|
        0 <= e1 < e2 < w.seen.len() ==> (#[trigger] w.seen[e1]).name != (#[trigger] w.seen[e2]).name
}

/// One more kept class does not change the count among those before it.
pub proof fn lemma_occurrences_push(
    t: Seq<ClassModel>,
    kept: Seq<usize>,
    x: usize,
    name: Seq<char>,
    k: nat,
)
    requires
        k <= kept.len(),
    ensures
        occurrences(t, kept.push(x), name, k) == occurrences(t, kept, name, k),
    decreases k,
{
    if k > 0 {
        lemma_occurrences_push(t, kept, x, name, (k - 1) as nat);
        assert(kept.push(x)[k - 1] == kept[k - 1]);
    }
}

/// No entry has the name exactly when `seen_at` finds none.
pub proof fn lemma_seen_at_none(seen: Seq<SeenName>, name: Seq<char>)
    ensures
        seen_at(seen, name) == -1 <==> (forall|e: int|
            0 <= e < seen.len() ==> (#[trigger] seen[e]).name != name),
    decreases seen.len(),
{
    if seen.len() > 0 {
        let init = seen.drop_last();
        lemma_seen_at_none(init, name);
        lemma_seen_at_range(init, name);
        if seen_at(seen, name) == -1 {
            assert forall|e: int| 0 <= e < seen.len() implies (#[trigger] seen[e]).name
                != name by {
                if e < init.len() {
                    assert(init[e] == seen[e]);
                }
            }
        } else {
            let p = seen_at(seen, name);
            if seen_at(init, name) >= 0 {
                assert(init[p] == seen[p]);
            }
            assert(seen[p].name == name);
        }
    }
}

/// A visit keeps what holds of the walk.
pub proof fn lemma_visit_holds(t: Seq<ClassModel>, n: nat, w: Walk)
    requires
        walk_holds(t, n, w),
        n < t.len() <= usize::MAX,
    ensures
        walk_holds(t, n + 1, visited(w, n as int)),
{
    let c = n as int;
    let v = visited(w, c);
    assert(!w.kept.contains(c as usize)) by {
        if w.kept.contains(c as usize) {
            let k = choose|k: int| 0 <= k < w.kept.len() && w.kept[k] == c as usize;
            assert(w.kept[k] < n);
        }
    }
    assert(w.classes[c].name == t[c].name);
    let name = t[c].name;
    let e = seen_at(w.seen, name);
    lemma_seen_at_range(w.seen, name);
    lemma_seen_at_none(w.seen, name);
    if e >= 0 && structurally_equal(w.classes, w.seen[e].first as int, c) {
        assert(v == w);
    } else {
        let len = w.kept.len();
        assert(v.kept == w.kept.push(c as usize));
        assert(v.kept[len as int] == c as usize);
        assert forall|x: usize| w.kept.contains(x) implies v.kept.contains(x) by {
            let k = choose|k: int| 0 <= k < w.kept.len() && w.kept[k] == x;
            assert(v.kept[k] == x);
        }
        assert forall|x: usize| v.kept.contains(x) implies w.kept.contains(x) || x == c by {
            let k = choose|k: int| 0 <= k < v.kept.len() && v.kept[k] == x;
            if k < len {
                assert(w.kept[k] == x);
            }
        }
        assert forall|nm: Seq<char>|
            occurrences(t, v.kept, nm, (len + 1) as nat) == occurrences(t, w.kept, nm, len)
                + if name == nm {
                1nat
            } else {
                0nat
            } by {
            lemma_occurrences_push(t, w.kept, c as usize, nm, len);
        }
        assert forall|k: int| 0 <= k < v.kept.len() implies #[trigger] v.kept[k] < n + 1 by {
            if k < len {
                assert(v.kept[k] == w.kept[k]);
            }
        }
        assert forall|x: int| 0 <= x < t.len() implies (#[trigger] v.classes[x]).fields
            == t[x].fields && v.classes[x].children == t[x].children by {
            assert(w.classes[x].fields == t[x].fields);
        }
        assert forall|x: int| 0 <= x < t.len() && !v.kept.contains(x as usize) implies (
        #[trigger] v.classes[x]).name == t[x].name by {
            assert(x != c);
            assert(!w.kept.contains(x as usize));
            assert(w.classes[x].name == t[x].name);
        }
        if e >= 0 {
            let count = w.seen[e].count + 1;
            assert(entry_holds(t, w, e));
            assert(w.seen[e].name == name);
            assert(count == occurrences(t, w.kept, name, len));
            assert forall|k: int| 0 <= k < v.kept.len() implies v.classes[
            #[trigger] v.kept[k] as int].name == numbered(
                t[v.kept[k] as int].name,
                occurrences(t, v.kept, t[v.kept[k] as int].name, k as nat),
            ) by {
                lemma_occurrences_push(
                    t,
                    w.kept,
                    c as usize,
                    t[v.kept[k] as int].name,
                    k as nat,
                );
                if k < len {
                    assert(v.kept[k] == w.kept[k]);
                    assert(w.kept[k] < n);
                }
            }
            assert forall|x: int| 0 <= x < v.seen.len() implies #[trigger] entry_holds(t, v, x) by {
                assert(entry_holds(t, w, x));
                assert(w.seen[x].first != c) by {
                    let k = choose|k: int| 0 <= k < w.kept.len() && w.kept[k] == w.seen[x].first;
                    assert(w.kept[k] < n);
                }
                if x != e {
                    assert(v.seen[x] == w.seen[x]);
                    if x < e {
                        assert(w.seen[x].name != w.seen[e].name);
                    } else {
                        assert(w.seen[e].name != w.seen[x].name);
                    }
                }
            }
            assert forall|e1: int, e2: int| 0 <= e1 < e2 < v.seen.len() implies (
            #[trigger] v.seen[e1]).name != (#[trigger] v.seen[e2]).name by {
                assert(v.seen[e1].name == w.seen[e1].name);
                assert(v.seen[e2].name == w.seen[e2].name);
            }
            assert forall|nm: Seq<char>| #[trigger] seen_at(v.seen, nm) == -1 implies occurrences(
                t,
                v.kept,
                nm,
                v.kept.len(),
            ) == 0 by {
                lemma_seen_at_none(v.seen, nm);
                lemma_seen_at_none(w.seen, nm);
                assert forall|x: int| 0 <= x < w.seen.len() implies (#[trigger] w.seen[x]).name
                    != nm by {
                    assert(v.seen[x].name == w.seen[x].name);
                }
                assert(w.seen[e].name != nm);
            }
        } else {
            assert(occurrences(t, w.kept, name, len) == 0);
            assert forall|k: int| 0 <= k < v.kept.len() implies v.classes[
            #[trigger] v.kept[k] as int].name == numbered(
                t[v.kept[k] as int].name,
                occurrences(t, v.kept, t[v.kept[k] as int].name, k as nat),
            ) by {
                lemma_occurrences_push(
                    t,
                    w.kept,
                    c as usize,
                    t[v.kept[k] as int].name,
                    k as nat,
                );
                if k < len {
                    assert(v.kept[k] == w.kept[k]);
                }
            }
            assert forall|x: int| 0 <= x < v.seen.len() implies #[trigger] entry_holds(t, v, x) by {
                if x < w.seen.len() {
                    assert(entry_holds(t, w, x));
                    assert(v.seen[x] == w.seen[x]);
                    assert(w.seen[x].name != name);
                }
            }
            assert forall|e1: int, e2: int| 0 <= e1 < e2 < v.seen.len() implies (
            #[trigger] v.seen[e1]).name != (#[trigger] v.seen[e2]).name by {
                assert(v.seen[e1] == w.seen[e1]);
                if e2 < w.seen.len() {
                    assert(v.seen[e2] == w.seen[e2]);
                } else {
                    assert(w.seen[e1].name != name);
                }
            }
            assert forall|nm: Seq<char>| #[trigger] seen_at(v.seen, nm) == -1 implies occurrences(
                t,
                v.kept,
                nm,
                v.kept.len(),
            ) == 0 by {
                lemma_seen_at_none(v.seen, nm);
                lemma_seen_at_none(w.seen, nm);
                assert(v.seen[w.seen.len() as int].name == name);
                assert forall|x: int| 0 <= x < w.seen.len() implies (#[trigger] w.seen[x]).name
                    != nm by {
                    assert(v.seen[x] == w.seen[x]);
                }
            }
        }
    }
}

/// What holds of the walk holds after any number of visits.
pub proof fn lemma_walk_holds(t: Seq<ClassModel>, n: nat)
    requires
        n <= t.len() <= usize::MAX,
    ensures
        walk_holds(t, n, walked(t, n)),
    decreases n,
{
    if n > 0 {
        lemma_walk_holds(t, (n - 1) as nat);
        lemma_visit_holds(t, (n - 1) as nat, walked(t, (n - 1) as nat));
    }
}

/// Later visits leave alone what earlier visits have settled: a class
/// visited before stays kept or dropped as it was, under the name it had.
pub proof fn lemma_walk_settles(t: Seq<ClassModel>, m: nat, m2: nat)
    requires
        m <= m2 <= t.len() <= usize::MAX,
    ensures
        forall|x: usize|
            walked(t, m).kept.contains(x) ==> #[trigger] walked(t, m2).kept.contains(x),
        forall|x: usize|
            x < m && #[trigger] walked(t, m2).kept.contains(x) ==> walked(t, m).kept.contains(x),
        forall|x: int|
            0 <= x < m ==> (#[trigger] walked(t, m2).classes[x]).name == walked(
                t,
                m,
            ).classes[x].name,
    decreases m2,
{
    if m < m2 {
        let p = (m2 - 1) as nat;
        lemma_walk_settles(t, m, p);
        lemma_walk_holds(t, p);
        let w = walked(t, p);
        let v = walked(t, m2);
        assert(v == visited(w, p as int));
        assert forall|x: usize| w.kept.contains(x) implies v.kept.contains(x) by {
            let k = choose|k: int| 0 <= k < w.kept.len() && w.kept[k] == x;
            if v.kept != w.kept {
                assert(v.kept == w.kept.push(p as usize));
                assert(v.kept[k] == x);
            }
        }
        assert forall|x: usize| x < m && v.kept.contains(x) implies w.kept.contains(x) by {
            let k = choose|k: int| 0 <= k < v.kept.len() && v.kept[k] == x;
            if v.kept != w.kept {
                assert(v.kept == w.kept.push(p as usize));
                if k < w.kept.len() {
                    assert(w.kept[k] == x);
                }
            }
        }
        assert forall|x: int| 0 <= x < m implies (#[trigger] v.classes[x]).name
            == w.classes[x].name by {
            assert(w.classes.len() == t.len());
        }
    }
}

/// Of the classes that the document gave one name, the first that is
/// kept keeps the name, and the one kept as number `r` after it has the
/// name followed by the decimal numeral of `r`. A class that is dropped
/// takes no number.
pub proof fn lemma_kept_class_name(t: Seq<ClassModel>, k: int)
    requires
        t.len() <= usize::MAX,
        0 <= k < finalized(t).kept.len(),
    ensures
        ({
            let w = finalized(t);
            let c = w.kept[k] as int;
            &&& 0 <= c < t.len()
            &&& w.classes[c].name == numbered(
                t[c].name,
                occurrences(t, w.kept, t[c].name, k as nat),
            )
        }),
{
    lemma_walk_holds(t, t.len());
    let w = finalized(t);
    assert(w.kept[k] < t.len());
}

/// A class is dropped only where, when the walk reaches it, the class
/// first seen under its name is structurally equal to it. That class is
/// emitted, and in the end both have the name that the document gave
/// them: whatever refers to one or the other names the one class that is
/// emitted.
pub proof fn lemma_dropped_class(t: Seq<ClassModel>, c: int)
    requires
        t.len() <= usize::MAX,
        0 <= c < t.len(),
        !finalized(t).kept.contains(c as usize),
    ensures
        ({
            let before = walked(t, c as nat);
            let e = seen_at(before.seen, t[c].name);
            let first = before.seen[e].first;
            let w = finalized(t);
            &&& 0 <= e < before.seen.len()
            &&& first < c
            &&& structurally_equal(before.classes, first as int, c)
            &&& w.kept.contains(first)
            &&& w.classes[first as int].name == t[c].name
            &&& w.classes[c].name == t[c].name
        }),
{
    let before = walked(t, c as nat);
    let after = walked(t, (c + 1) as nat);
    let w = finalized(t);
    lemma_walk_holds(t, c as nat);
    lemma_walk_settles(t, (c + 1) as nat, t.len());
    lemma_walk_settles(t, c as nat, t.len());
    assert(after == visited(before, c));
    assert(!before.kept.contains(c as usize)) by {
        if before.kept.contains(c as usize) {
            let k = choose|k: int| 0 <= k < before.kept.len() && before.kept[k] == c as usize;
            assert(before.kept[k] < c);
        }
    }
    assert(before.classes[c].name == t[c].name);
    let e = seen_at(before.seen, t[c].name);
    lemma_seen_at_range(before.seen, t[c].name);
    assert(!after.kept.contains(c as usize));
    if !(e >= 0 && structurally_equal(before.classes, before.seen[e].first as int, c)) {
        assert(after.kept == before.kept.push(c as usize));
        assert(after.kept[before.kept.len() as int] == c as usize);
        assert(false);
    }
    let first = before.seen[e].first;
    assert(entry_holds(t, before, e));
    assert(first < c) by {
        let k = choose|k: int| 0 <= k < before.kept.len() && before.kept[k] == first;
        assert(before.kept[k] < c);
    }
    assert(w.classes[first as int].name == before.classes[first as int].name);
    assert(w.classes[c].name == after.classes[c].name);
}

/// Where, when the walk reaches a class, the class first seen under its
/// name is structurally equal to it, the class is dropped: it is not
/// emitted, and it takes no number.
pub proof fn lemma_equal_class_is_dropped(t: Seq<ClassModel>, c: int)
    requires
        t.len() <= usize::MAX,
        0 <= c < t.len(),
        ({
            let before = walked(t, c as nat);
            let e = seen_at(before.seen, before.classes[c].name);
            e >= 0 && structurally_equal(before.classes, before.seen[e].first as int, c)
        }),
    ensures
        walked(t, (c + 1) as nat) == walked(t, c as nat),
        !finalized(t).kept.contains(c as usize),
{
    let before = walked(t, c as nat);
    let after = walked(t, (c + 1) as nat);
    lemma_walk_holds(t, c as nat);
    lemma_walk_settles(t, (c + 1) as nat, t.len());
    assert(after == visited(before, c));
    assert(!before.kept.contains(c as usize)) by {
        if before.kept.contains(c as usize) {
            let k = choose|k: int| 0 <= k < before.kept.len() && before.kept[k] == c as usize;
            assert(before.kept[k] < c);
        }
    }
}

/// No class before class `c` has the name of class `c`.
pub open spec fn first_of_its_name(t: Seq<ClassModel>, c: int) -> bool {
    forall|x: int| 0 <= x < c ==> (#[trigger] t[x]).name != t[c].name
}

/// Any two classes of the table that have the same name are structurally
/// equal.
pub open spec fn same_name_same_shape(t: Seq<ClassModel>) -> bool {
    forall|x: int, y: int|
        0 <= x < y < t.len() && (#[trigger] t[x]).name == (#[trigger] t[y]).name
            ==> structurally_equal(t, x, y)
}

/// What holds after `n` visits of a walk over a table in which classes of
/// the same name are structurally equal: no class has been renamed, and
/// the classes kept are those that are the first of their name.
pub open spec fn plain_walk(t: Seq<ClassModel>, n: nat, w: Walk) -> bool {
    &&& w.classes == t
    &&& forall|e: int|
        0 <= e < w.seen.len() ==> (#[trigger] w.seen[e]).first < n && t[w.seen[e].first as int].name
            == w.seen[e].name
    &&& forall|x: int| 0 <= x < n ==> 0 <= seen_at(w.seen, (#[trigger] t[x]).name)
    &&& forall|c: int|
        0 <= c < n ==> (w.kept.contains(c as usize) <==> #[trigger] first_of_its_name(t, c))
    &&& forall|k: int| 0 <= k < w.kept.len() ==> #[trigger] w.kept[k] < n
}

/// A visit keeps what holds of such a walk.
pub proof fn lemma_plain_visit(t: Seq<ClassModel>, n: nat, w: Walk)
    requires
        same_name_same_shape(t),
        plain_walk(t, n, w),
        n < t.len() <= usize::MAX,
    ensures
        plain_walk(t, n + 1, visited(w, n as int)),
{
    let c = n as int;
    let v = visited(w, c);
    let name = t[c].name;
    let e = seen_at(w.seen, name);
    lemma_seen_at_range(w.seen, name);
    lemma_seen_at_none(w.seen, name);
    assert(!w.kept.contains(c as usize)) by {
        if w.kept.contains(c as usize) {
            let k = choose|k: int| 0 <= k < w.kept.len() && w.kept[k] == c as usize;
            assert(w.kept[k] < n);
        }
    }
    if e >= 0 {
        let first = w.seen[e].first as int;
        assert(t[first].name == t[c].name);
        assert(structurally_equal(t, first, c));
        assert(v == w);
        assert(!first_of_its_name(t, c));
    } else {
        assert(v.classes == t);
        assert(v.kept == w.kept.push(c as usize));
        assert(v.kept[w.kept.len() as int] == c as usize);
        assert(first_of_its_name(t, c)) by {
            assert forall|x: int| 0 <= x < c implies (#[trigger] t[x]).name != t[c].name by {
                let p = seen_at(w.seen, t[x].name);
                lemma_seen_at_range(w.seen, t[x].name);
            }
        }
        assert forall|x: int| 0 <= x < v.seen.len() implies (#[trigger] v.seen[x]).first < n + 1
            && t[v.seen[x].first as int].name == v.seen[x].name by {
            if x < w.seen.len() {
                assert(v.seen[x] == w.seen[x]);
            }
        }
        assert forall|x: int| 0 <= x < n + 1 implies 0 <= seen_at(
            v.seen,
            (#[trigger] t[x]).name,
        ) by {
            lemma_seen_at_none(v.seen, t[x].name);
            lemma_seen_at_range(v.seen, t[x].name);
            if x == c {
                assert(v.seen[w.seen.len() as int].name == name);
            } else {
                let p = seen_at(w.seen, t[x].name);
                lemma_seen_at_range(w.seen, t[x].name);
                assert(v.seen[p] == w.seen[p]);
            }
        }
        assert forall|x: int| 0 <= x < n + 1 implies (v.kept.contains(x as usize)
            <==> #[trigger] first_of_its_name(t, x)) by {
            if x < n {
                if w.kept.contains(x as usize) {
                    let k = choose|k: int| 0 <= k < w.kept.len() && w.kept[k] == x as usize;
                    assert(v.kept[k] == x as usize);
                }
                if v.kept.contains(x as usize) {
                    let k = choose|k: int| 0 <= k < v.kept.len() && v.kept[k] == x as usize;
                    assert(w.kept[k] == x as usize);
                }
            }
        }
        assert forall|k: int| 0 <= k < v.kept.len() implies #[trigger] v.kept[k] < n + 1 by {
            if k < w.kept.len() {
                assert(v.kept[k] == w.kept[k]);
            }
        }
    }
}

/// In a table in which classes of the same name are structurally equal,
/// every shape is emitted once: the walk renames no class, keeps every
/// class that is the first of its name, and drops every other. What
/// refers to a dropped class names the class that is kept.
pub proof fn lemma_each_shape_emitted_once(t: Seq<ClassModel>, n: nat)
    requires
        same_name_same_shape(t),
        n <= t.len() <= usize::MAX,
    ensures
        walked(t, n).classes == t,
        forall|c: int|
            0 <= c < n ==> (walked(t, n).kept.contains(c as usize)
                <==> #[trigger] first_of_its_name(t, c)),
        plain_walk(t, n, walked(t, n)),
    decreases n,
{
    if n > 0 {
        lemma_each_shape_emitted_once(t, (n - 1) as nat);
        lemma_plain_visit(t, (n - 1) as nat, walked(t, (n - 1) as nat));
    }
}

} // verus!
