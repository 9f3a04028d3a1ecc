//! Character classes and small text transformations that identifiers and
//! generated source are assembled from.
use vstd::prelude::*;

verus! {

/// Whether `c` has the Unicode `Alphabetic` property.
pub uninterp spec fn alphabetic_char(c: char) -> bool;

/// Whether `c` is alphabetic or numeric in the Unicode sense.
pub uninterp spec fn alphanumeric_char(c: char) -> bool;

/// `char::is_alphabetic` of std: decides the Unicode `Alphabetic` property,
/// which the library only refers to by name.
pub assume_specification[ char::is_alphabetic ](c: char) -> (b: bool)
    ensures
        b == alphabetic_char(c),
;

/// `char::is_alphanumeric` of std: decides whether the character is
/// alphabetic or numeric, which the library only refers to by name.
pub assume_specification[ char::is_alphanumeric ](c: char) -> (b: bool)
    ensures
        b == alphanumeric_char(c),
;

/// `String::push` of std: appends one character to the end of the string.
pub assume_specification[ String::push ](s: &mut String, c: char)
    ensures
        final(s)@ == old(s)@.push(c),
;

/// The text without its leading run of non-alphabetic characters.
pub open spec fn without_leading_non_alphabetic(s: Seq<char>) -> Seq<char>
    decreases s.len(),
{
    if s.len() == 0 || alphabetic_char(s[0]) {
        s
    } else {
        without_leading_non_alphabetic(s.drop_first())
    }
}

/// The predicate that keeps alphanumeric characters.
pub open spec fn alphanumeric() -> spec_fn(char) -> bool {
    |c: char| alphanumeric_char(c)
}

/// The alphanumeric characters of the text, in order.
pub open spec fn only_alphanumeric(s: Seq<char>) -> Seq<char> {
    s.filter(alphanumeric())
}

/// Dropping `k` leading characters, none of them alphabetic, down to an
/// alphabetic character or the end, is removing the leading run.
pub proof fn lemma_leading_run(s: Seq<char>, k: int)
    requires
        0 <= k <= s.len(),
        forall|j: int| 0 <= j < k ==> !alphabetic_char(#[trigger] s[j]),
        k == s.len() || alphabetic_char(s[k]),
    ensures
        without_leading_non_alphabetic(s) == s.skip(k),
    decreases k,
{
    if k == 0 {
        assert(s.skip(0) =~= s);
    } else {
        let rest = s.drop_first();
        assert forall|j: int| 0 <= j < k - 1 implies !alphabetic_char(#[trigger] rest[j]) by {
            assert(rest[j] == s[j + 1]);
        }
        lemma_leading_run(rest, k - 1);
        assert(rest.skip(k - 1) =~= s.skip(k));
    }
}

/// What is left without the leading run is empty or begins with an
/// alphabetic character.
pub proof fn lemma_begins_alphabetic(s: Seq<char>)
    ensures
        without_leading_non_alphabetic(s).len() == 0 || alphabetic_char(
            without_leading_non_alphabetic(s)[0],
        ),
    decreases s.len(),
{
    if !(s.len() == 0 || alphabetic_char(s[0])) {
        lemma_begins_alphabetic(s.drop_first());
    }
}

/// Every character that is left is alphanumeric.
pub proof fn lemma_all_alphanumeric(s: Seq<char>)
    ensures
        forall|i: int|
            0 <= i < only_alphanumeric(s).len() ==> alphanumeric_char(
                #[trigger] only_alphanumeric(s)[i],
            ),
{
    assert forall|i: int| 0 <= i < only_alphanumeric(s).len() implies alphanumeric_char(
        #[trigger] only_alphanumeric(s)[i],
    ) by {
        s.lemma_filter_pred(alphanumeric(), i);
    }
}

/// Removes the leading run of non-alphabetic characters.
pub fn strip_leading_non_alphabetic(s: &str) -> (out: String)
    ensures
        out@ == without_leading_non_alphabetic(s@),
        out@.len() == 0 || alphabetic_char(out@[0]),
{
    let mut out = String::new();
    let mut started = false;
    let ghost mut start: int = 0;
    for c in it: s.chars()
        invariant
            it.seq() == s@,
            0 <= start <= it.index(),
            !started ==> start == it.index(),
            started ==> start < it.index() && alphabetic_char(s@[start]),
            forall|j: int| 0 <= j < start ==> !alphabetic_char(#[trigger] s@[j]),
            out@ == s@.subrange(start, it.index() as int),
    {
        let ghost i = it.index() as int;
        if !started && c.is_alphabetic() {
            started = true;
        }
        if started {
            out.push(c);
            assert(out@ =~= s@.subrange(start, i + 1));
        } else {
            proof {
                start = i + 1;
            }
            assert(out@ =~= s@.subrange(start, i + 1));
        }
    }
    proof {
        lemma_leading_run(s@, start);
        assert(s@.subrange(start, s@.len() as int) =~= s@.skip(start));
        lemma_begins_alphabetic(s@);
    }
    out
}

/// Removes every character that is not alphanumeric.
pub fn keep_alphanumeric(s: &str) -> (out: String)
    ensures
        out@ == only_alphanumeric(s@),
        forall|i: int| 0 <= i < out@.len() ==> alphanumeric_char(#[trigger] out@[i]),
{
    let mut out = String::new();
    proof {
        reveal(Seq::filter);
        assert(s@.take(0) =~= Seq::<char>::empty());
    }
    for c in it: s.chars()
        invariant
            it.seq() == s@,
            out@ == s@.take(it.index() as int).filter(alphanumeric()),
    {
        let ghost i = it.index() as int;
        proof {
            assert(s@.take(i + 1) =~= s@.take(i).push(c));
            s@.take(i).lemma_filter_push(c, alphanumeric());
        }
        if c.is_alphanumeric() {
            out.push(c);
        }
    }
    assert(s@.take(s@.len() as int) =~= s@);
    proof {
        lemma_all_alphanumeric(s@);
    }
    out
}

} // verus!
