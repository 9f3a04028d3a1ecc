//! Dropping classes that occur again and naming those that share a name.
use vstd::prelude::*;
use vstd::string::*;
use crate::generators::class_equality::same_class;
use crate::generators::class_model::{
    ClassModel, class_well_formed, structurally_equal, well_formed,
};
use crate::generators::dart_generator::{DartClassGenerator, renamed};
use crate::generators::naming_laws::lemma_walk_holds;
use crate::generators::tree_laws::lemma_nested_same;

verus! {

/// What the walk remembers of a name: the class first seen under it, and
/// how many further classes of that name, all different from the first,
/// it has kept since.
pub ghost struct SeenName {
    pub name: Seq<char>,
    pub first: usize,
    pub count: nat,
}

/// The state of the walk over the table.
pub ghost struct Walk {
    /// The table, with the names given so far.
    pub classes: Seq<ClassModel>,
    /// The names seen so far, each once, in the order in which they came.
    pub seen: Seq<SeenName>,
    /// The classes kept so far, by index, in the order of the walk.
    pub kept: Seq<usize>,
}

/// The position of the first entry for `name`, or -1 where none has it.
pub open spec fn seen_at(seen: Seq<SeenName>, name: Seq<char>) -> int
    decreases seen.len(),
{
    if seen.len() == 0 {
        -1
    } else {
        let before = seen_at(seen.drop_last(), name);
        if before >= 0 {
            before
        } else if seen.last().name == name {
            seen.len() - 1
        } else {
            -1
        }
    }
}

/// The decimal digit of a number below ten.
pub open spec fn digit(d: nat) -> char {
    if d == 0 {
        '0'
    } else if d == 1 {
        '1'
    } else if d == 2 {
        '2'
    } else if d == 3 {
        '3'
    } else if d == 4 {
        '4'
    } else if d == 5 {
        '5'
    } else if d == 6 {
        '6'
    } else if d == 7 {
        '7'
    } else if d == 8 {
        '8'
    } else {
        '9'
    }
}

/// The decimal numeral of a number, without leading zeros.
pub open spec fn decimal(n: nat) -> Seq<char>
    decreases n,
{
    if n < 10 {
        seq![digit(n)]
    } else {
        decimal(n / 10).push(digit(n % 10))
    }
}

/// The walk after it has visited class `c`.
///
/// A class that is structurally equal to the class first seen under its
/// name is dropped, and nothing changes. Any other class is kept: the
/// first of its name as it is, a later one under its name followed by
/// the number of classes of that name kept since the first.
pub open spec fn visited(w: Walk, c: int) -> Walk {
    let name = w.classes[c].name;
    let e = seen_at(w.seen, name);
    if e >= 0 && structurally_equal(w.classes, w.seen[e].first as int, c) {
        w
    } else if e >= 0 {
        let count = w.seen[e].count + 1;
        Walk {
            classes: renamed(w.classes, c, name + decimal(count)),
            seen: w.seen.update(e, SeenName { count, ..w.seen[e] }),
            kept: w.kept.push(c as usize),
        }
    } else {
        Walk {
            classes: w.classes,
            seen: w.seen.push(SeenName { name, first: c as usize, count: 0 }),
            kept: w.kept.push(c as usize),
        }
    }
}

/// The walk after it has visited the first `n` classes of the table, in
/// the order of the table.
pub open spec fn walked(t: Seq<ClassModel>, n: nat) -> Walk
    decreases n,
{
    if n == 0 {
        Walk { classes: t, seen: Seq::empty(), kept: Seq::empty() }
    } else {
        visited(walked(t, (n - 1) as nat), n - 1)
    }
}

/// The walk over the whole table: the classes under their final names,
/// and the indices of those to emit, root first.
pub open spec fn finalized(t: Seq<ClassModel>) -> Walk {
    walked(t, t.len())
}

/// A name that the walk has seen.
pub struct Seen {
    pub name: String,
    pub first: usize,
    pub count: usize,
}

impl View for Seen {
    type V = SeenName;

    open spec fn view(&self) -> SeenName {
        SeenName { name: self.name@, first: self.first, count: self.count as nat }
    }
}

/// The entries as contracts speak of them.
pub open spec fn seen_names(seen: Seq<Seen>) -> Seq<SeenName> {
    seen.map_values(|s: Seen| s@)
}

/// The decimal numeral of `n`.
pub fn decimal_text(n: usize) -> (out: String)
    ensures
        out@ == decimal(n as nat),
    decreases n,
{
    let mut out = if n < 10 {
        String::new()
    } else {
        decimal_text(n / 10)
    };
    let d = n % 10;
    let c = if d == 0 {
        '0'
    } else if d == 1 {
        '1'
    } else if d == 2 {
        '2'
    } else if d == 3 {
        '3'
    } else if d == 4 {
        '4'
    } else if d == 5 {
        '5'
    } else if d == 6 {
        '6'
    } else if d == 7 {
        '7'
    } else if d == 8 {
        '8'
    } else {
        '9'
    };
    out.push(c);
    assert(n < 10 ==> out@ =~= seq![digit(n as nat)]);
    out
}

/// The position of the first entry for `name`, if there is one.
pub fn find_seen(seen: &Vec<Seen>, name: &String) -> (found: Option<usize>)
    ensures
        match found {
            Some(p) => p == seen_at(seen_names(seen@), name@),
            None => seen_at(seen_names(seen@), name@) == -1,
        },
{
    let ghost names = seen_names(seen@);
    let mut found: Option<usize> = None;
    let mut i: usize = 0;
    assert(names.take(0) =~= Seq::empty());
    while i < seen.len()
        invariant
            i <= seen.len(),
            names == seen_names(seen@),
            match found {
                Some(p) => p == seen_at(names.take(i as int), name@),
                None => seen_at(names.take(i as int), name@) == -1,
            },
        decreases seen.len() - i,
    {
        proof {
            assert(names.take(i + 1).drop_last() =~= names.take(i as int));
            assert(names.take(i + 1).last() == seen[i as int]@);
        }
        if found.is_none() && seen[i].name == *name {
            found = Some(i);
        }
        i += 1;
    }
    assert(names.take(i as int) =~= names);
    found
}

/// Giving a class another name leaves the table well formed.
pub proof fn lemma_renamed_well_formed(t: Seq<ClassModel>, c: int, name: Seq<char>)
    requires
        well_formed(t),
        0 <= c < t.len(),
    ensures
        well_formed(renamed(t, c, name)),
{
    let r = renamed(t, c, name);
    assert forall|i: int| 0 <= i < r.len() implies #[trigger] class_well_formed(r, i) by {
        assert(class_well_formed(t, i));
        assert(r[i].fields == t[i].fields);
        assert(r[i].children == t[i].children);
    }
}

/// What holds of the walk after any number of classes: the table stays
/// well formed and as long as it was, and every entry and every kept
/// index points into it.
pub open spec fn walk_well_formed(w: Walk, len: int) -> bool {
    &&& well_formed(w.classes)
    &&& w.classes.len() == len
    &&& forall|e: int| 0 <= e < w.seen.len() ==> (#[trigger] w.seen[e]).first < len
    &&& forall|e: int| 0 <= e < w.seen.len() ==> (#[trigger] w.seen[e]).count < w.kept.len()
    &&& forall|k: int| 0 <= k < w.kept.len() ==> #[trigger] w.kept[k] < len
}

/// The position that `seen_at` gives is that of an entry.
pub proof fn lemma_seen_at_range(seen: Seq<SeenName>, name: Seq<char>)
    ensures
        -1 <= seen_at(seen, name) < seen.len(),
        seen_at(seen, name) >= 0 ==> seen[seen_at(seen, name)].name == name,
    decreases seen.len(),
{
    if seen.len() > 0 {
        lemma_seen_at_range(seen.drop_last(), name);
    }
}

/// A visit keeps the walk well formed.
pub proof fn lemma_visited_well_formed(w: Walk, c: int)
    requires
        walk_well_formed(w, w.classes.len() as int),
        0 <= c < w.classes.len(),
        w.classes.len() <= usize::MAX,
    ensures
        walk_well_formed(visited(w, c), w.classes.len() as int),
{
    let name = w.classes[c].name;
    let e = seen_at(w.seen, name);
    lemma_seen_at_range(w.seen, name);
    let v = visited(w, c);
    if e >= 0 && structurally_equal(w.classes, w.seen[e].first as int, c) {
    } else if e >= 0 {
        lemma_renamed_well_formed(w.classes, c, name + decimal(w.seen[e].count + 1));
        assert forall|x: int| 0 <= x < v.seen.len() implies (#[trigger] v.seen[x]).first
            < w.classes.len() && v.seen[x].count < v.kept.len() by {
            if x != e {
                assert(v.seen[x] == w.seen[x]);
            }
        }
        assert forall|k: int| 0 <= k < v.kept.len() implies #[trigger] v.kept[k]
            < w.classes.len() by {
            if k < w.kept.len() {
                assert(v.kept[k] == w.kept[k]);
            }
        }
    } else {
        assert forall|x: int| 0 <= x < v.seen.len() implies (#[trigger] v.seen[x]).first
            < w.classes.len() && v.seen[x].count < v.kept.len() by {
            if x < w.seen.len() {
                assert(v.seen[x] == w.seen[x]);
            }
        }
        assert forall|k: int| 0 <= k < v.kept.len() implies #[trigger] v.kept[k]
            < w.classes.len() by {
            if k < w.kept.len() {
                assert(v.kept[k] == w.kept[k]);
            }
        }
    }
}

/// The walk is well formed after any number of visits.
pub proof fn lemma_walked_well_formed(t: Seq<ClassModel>, n: nat)
    requires
        well_formed(t),
        n <= t.len() <= usize::MAX,
    ensures
        walk_well_formed(walked(t, n), t.len() as int),
    decreases n,
{
    if n > 0 {
        lemma_walked_well_formed(t, (n - 1) as nat);
        lemma_visited_well_formed(walked(t, (n - 1) as nat), n - 1);
    }
}

impl DartClassGenerator {
    /// Walks the table in its order, drops every class that is
    /// structurally equal to the class first seen under its name, and
    /// gives every other class that is not the first of its name a
    /// numbered name. Returns the classes to emit, by index, root first.
    pub fn finalize(&mut self) -> (kept: Vec<usize>)
        requires
            old(self).wf(),
        ensures
            final(self).table() == finalized(old(self).table()).classes,
            kept@ == finalized(old(self).table()).kept,
            final(self).rule() == old(self).rule(),
            final(self).wf(),
            final(self).table().len() == old(self).table().len(),
            forall|k: int| 0 <= k < kept.len() ==> #[trigger] kept[k] < old(self).table().len(),
    {
        let ghost t0 = self.table();
        let n = self.classes().len();
        let mut seen: Vec<Seen> = Vec::new();
        let mut kept: Vec<usize> = Vec::new();
        let mut i: usize = 0;
        proof {
            assert(seen_names(seen@) =~= Seq::empty());
            lemma_walked_well_formed(t0, 0);
        }
        while i < n
            invariant
                i <= n,
                n == t0.len(),
                well_formed(t0),
                self.rule() == old(self).rule(),
                self.table() == walked(t0, i as nat).classes,
                seen_names(seen@) == walked(t0, i as nat).seen,
                kept@ == walked(t0, i as nat).kept,
                walk_well_formed(walked(t0, i as nat), n as int),
            decreases n - i,
        {
            let ghost w = walked(t0, i as nat);
            proof {
                lemma_visited_well_formed(w, i as int);
                lemma_seen_at_range(w.seen, w.classes[i as int].name);
            }
            let name = self.classes()[i].class_name.clone();
            assert(name@ == w.classes[i as int].name);
            match find_seen(&seen, &name) {
                Some(p) => {
                    let first = seen[p].first;
                    assert(seen[p as int]@ == w.seen[p as int]);
                    if !same_class(self.classes(), first, i) {
                        let emitted = kept.len();
                        assert(seen[p as int].count < emitted) by {
                            assert(w.seen[p as int].count < w.kept.len());
                        }
                        let count = seen[p].count + 1;
                        seen[p].count = count;
                        let mut new_name = name;
                        let suffix = decimal_text(count);
                        new_name.append(suffix.as_str());
                        self.change_class_name(i, new_name);
                        kept.push(i);
                        assert(seen_names(seen@) =~= visited(w, i as int).seen);
                    }
                },
                None => {
                    seen.push(Seen { name, first: i, count: 0 });
                    kept.push(i);
                    assert(seen_names(seen@) =~= visited(w, i as int).seen);
                },
            }
            i += 1;
        }
        proof {
            let w = walked(t0, n as nat);
            assert forall|k: int| 0 <= k < kept.len() implies #[trigger] kept[k] < n by {
                assert(w.kept[k] < n);
            }
            lemma_walk_holds(t0, n as nat);
            assert(class_well_formed(t0, 0));
            lemma_nested_same(t0, w.classes, 0, t0[0].children.len());
        }
        kept
    }
}

} // verus!
