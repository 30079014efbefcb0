//! Counting the elements of a sequence that satisfy a predicate, with the
//! lemmas the board and session proofs need: how a count changes under
//! `push` and `update`, and its bounds.

use vstd::prelude::*;

verus! {

/// How many elements of `s` satisfy `p`.
pub open spec fn count_where<T>(s: Seq<T>, p: spec_fn(T) -> bool) -> int
    decreases s.len(),
{
    if s.len() == 0 {
        0
    } else {
        count_where(s.drop_last(), p) + if p(s.last()) {
            1int
        } else {
            0int
        }
    }
}

/// A count lies between 0 and the sequence's length.
pub proof fn lemma_count_where_bounds<T>(s: Seq<T>, p: spec_fn(T) -> bool)
    ensures
        0 <= count_where(s, p) <= s.len(),
    decreases s.len(),
{
    if s.len() > 0 {
        lemma_count_where_bounds(s.drop_last(), p);
    }
}

/// Appending an element raises the count exactly when the element satisfies
/// the predicate.
pub proof fn lemma_count_where_push<T>(s: Seq<T>, p: spec_fn(T) -> bool, v: T)
    ensures
        count_where(s.push(v), p) == count_where(s, p) + if p(v) {
            1int
        } else {
            0int
        },
{
    assert(s.push(v).drop_last() =~= s);
    assert(s.push(v).last() == v);
}

/// Overwriting one element adjusts the count by how the old and the new
/// element stand to the predicate.
pub proof fn lemma_count_where_update<T>(s: Seq<T>, p: spec_fn(T) -> bool, i: int, v: T)
    requires
        0 <= i < s.len(),
    ensures
        count_where(s.update(i, v), p) == count_where(s, p) - (if p(s[i]) {
            1int
        } else {
            0int
        }) + (if p(v) {
            1int
        } else {
            0int
        }),
    decreases s.len(),
{
    let t = s.update(i, v);
    assert(t.len() == s.len());
    if i == s.len() - 1 {
        assert(t.drop_last() =~= s.drop_last());
        assert(t.last() == v);
    } else {
        assert(t.drop_last() =~= s.drop_last().update(i, v));
        assert(t.last() == s.last());
        lemma_count_where_update(s.drop_last(), p, i, v);
    }
}

/// Counting distributes over concatenation.
pub proof fn lemma_count_where_concat<T>(s: Seq<T>, t: Seq<T>, p: spec_fn(T) -> bool)
    ensures
        count_where(s + t, p) == count_where(s, p) + count_where(t, p),
    decreases t.len(),
{
    if t.len() == 0 {
        assert(s + t =~= s);
    } else {
        assert((s + t).drop_last() =~= s + t.drop_last());
        assert((s + t).last() == t.last());
        lemma_count_where_concat(s, t.drop_last(), p);
    }
}

/// Two sequences whose elements agree under the predicate, position by
/// position, count alike.
pub proof fn lemma_count_where_pointwise<T>(s: Seq<T>, t: Seq<T>, p: spec_fn(T) -> bool)
    requires
        s.len() == t.len(),
        forall|i: int| 0 <= i < s.len() ==> p(s[i]) == p(t[i]),
    ensures
        count_where(s, p) == count_where(t, p),
    decreases s.len(),
{
    if s.len() > 0 {
        assert(forall|i: int|
            0 <= i < s.drop_last().len() ==> p(s.drop_last()[i]) == p(t.drop_last()[i]));
        lemma_count_where_pointwise(s.drop_last(), t.drop_last(), p);
    }
}

/// Extending the counted prefix of a sequence by one element.
pub proof fn lemma_count_where_prefix_step<T>(s: Seq<T>, p: spec_fn(T) -> bool, i: int)
    requires
        0 <= i < s.len(),
    ensures
        count_where(s.subrange(0, i + 1), p) == count_where(s.subrange(0, i), p) + if p(s[i]) {
            1int
        } else {
            0int
        },
{
    assert(s.subrange(0, i + 1).drop_last() =~= s.subrange(0, i));
    assert(s.subrange(0, i + 1).last() == s[i]);
}

/// The full prefix of a sequence is the sequence itself.
pub proof fn lemma_count_where_full<T>(s: Seq<T>, p: spec_fn(T) -> bool)
    ensures
        count_where(s.subrange(0, s.len() as int), p) == count_where(s, p),
{
    assert(s.subrange(0, s.len() as int) =~= s);
}

} // verus!
