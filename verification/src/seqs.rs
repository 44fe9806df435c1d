//! Sequence vocabulary the contracts are written in: "the first element
//! that satisfies p", "the elements that satisfy p, in order", "how many".

use vstd::prelude::*;

verus! {

/// Index of the first element of `s` satisfying `p`.
pub open spec fn first_where<T>(s: Seq<T>, p: spec_fn(T) -> bool) -> Option<int>
    decreases s.len(),
{
    if s.len() == 0 {
        None
    } else {
        match first_where(s.drop_last(), p) {
            Some(i) => Some(i),
            None => if p(s.last()) {
                Some(s.len() - 1)
            } else {
                None
            },
        }
    }
}

/// The elements of `s` satisfying `p`, in their order.
pub open spec fn keep<T>(s: Seq<T>, p: spec_fn(T) -> bool) -> Seq<T>
    decreases s.len(),
{
    if s.len() == 0 {
        seq![]
    } else if p(s.last()) {
        keep(s.drop_last(), p).push(s.last())
    } else {
        keep(s.drop_last(), p)
    }
}

/// How many elements of `s` satisfy `p`.
pub open spec fn count_where<T>(s: Seq<T>, p: spec_fn(T) -> bool) -> nat
    decreases s.len(),
{
    if s.len() == 0 {
        0
    } else {
        count_where(s.drop_last(), p) + if p(s.last()) {
            1nat
        } else {
            0nat
        }
    }
}

pub proof fn lemma_first_where_found<T>(s: Seq<T>, p: spec_fn(T) -> bool, i: int)
    requires
        0 <= i < s.len(),
        p(s[i]),
        forall|j: int| 0 <= j < i ==> !p(#[trigger] s[j]),
    ensures
        first_where(s, p) == Some(i),
    decreases s.len(),
{
    if i < s.len() - 1 {
        lemma_first_where_found(s.drop_last(), p, i);
    } else {
        lemma_first_where_none(s.drop_last(), p);
    }
}

pub proof fn lemma_first_where_none<T>(s: Seq<T>, p: spec_fn(T) -> bool)
    requires
        forall|j: int| 0 <= j < s.len() ==> !p(#[trigger] s[j]),
    ensures
        first_where(s, p) == None::<int>,
    decreases s.len(),
{
    if s.len() > 0 {
        lemma_first_where_none(s.drop_last(), p);
    }
}

pub proof fn lemma_first_where_facts<T>(s: Seq<T>, p: spec_fn(T) -> bool)
    ensures
        match first_where(s, p) {
            Some(i) => 0 <= i < s.len() && p(s[i]) && forall|j: int|
                0 <= j < i ==> !p(#[trigger] s[j]),
            None => forall|j: int| 0 <= j < s.len() ==> !p(#[trigger] s[j]),
        },
    decreases s.len(),
{
    if s.len() > 0 {
        lemma_first_where_facts(s.drop_last(), p);
        let t = s.drop_last();
        assert forall|j: int| 0 <= j < t.len() implies t[j] == s[j] by {}
    }
}

pub proof fn lemma_keep_push<T>(s: Seq<T>, p: spec_fn(T) -> bool, x: T)
    ensures
        keep(s.push(x), p) == (if p(x) {
            keep(s, p).push(x)
        } else {
            keep(s, p)
        }),
        count_where(s.push(x), p) == count_where(s, p) + (if p(x) {
            1nat
        } else {
            0nat
        }),
{
    assert(s.push(x).drop_last() =~= s);
}

pub proof fn lemma_keep_len<T>(s: Seq<T>, p: spec_fn(T) -> bool)
    ensures
        keep(s, p).len() == count_where(s, p),
        count_where(s, p) <= s.len(),
    decreases s.len(),
{
    if s.len() > 0 {
        lemma_keep_len(s.drop_last(), p);
    }
}

} // verus!
