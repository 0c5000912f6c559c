//! Sorting by an order that is fixed by the element type.

use vstd::prelude::*;

use vstd::seq_lib::{group_to_multiset_ensures, lemma_multiset_commutative};

verus! {

/// A type whose values stand in a total order, up to ties.
pub trait Ordered: Sized {
    /// The first value may stand before the second.
    spec fn leq(self, other: Self) -> bool;

    proof fn lemma_total(a: Self, b: Self)
        ensures
            a.leq(b) || b.leq(a),
    ;

    proof fn lemma_transitive(a: Self, b: Self, c: Self)
        requires
            a.leq(b),
            b.leq(c),
        ensures
            a.leq(c),
    ;

    fn at_most(&self, other: &Self) -> (r: bool)
        ensures
            r == self.leq(*other),
    ;
}

pub open spec fn ascending<T: Ordered>(s: Seq<T>) -> bool {
    forall|i: int, j: int| #![trigger s[i], s[j]] 0 <= i < j < s.len() ==> s[i].leq(s[j])
}

pub open spec fn descending<T: Ordered>(s: Seq<T>) -> bool {
    forall|i: int, j: int| #![trigger s[i], s[j]] 0 <= i < j < s.len() ==> s[j].leq(s[i])
}

pub open spec fn in_order<T: Ordered>(s: Seq<T>, rising: bool) -> bool {
    if rising {
        ascending(s)
    } else {
        descending(s)
    }
}

/// The value may stand behind everything in the sequence.
spec fn follows<T: Ordered>(s: Seq<T>, a: T, rising: bool) -> bool {
    forall|i: int|
        0 <= i < s.len() ==> if rising {
            (#[trigger] s[i]).leq(a)
        } else {
            a.leq(s[i])
        }
}

proof fn lemma_pop<T>(s: Seq<T>)
    requires
        s.len() > 0,
    ensures
        s.to_multiset() == s.drop_last().to_multiset().insert(s.last()),
{
    broadcast use group_to_multiset_ensures;

    assert(s =~= s.drop_last().push(s.last()));
}

/// Puts two sequences that run the other way together, taking the next element
/// from the ends of both.
fn merge<T: Ordered>(left: Vec<T>, right: Vec<T>, rising: bool) -> (merged: Vec<T>)
    requires
        in_order(left@, !rising),
        in_order(right@, !rising),
    ensures
        in_order(merged@, rising),
        merged@.to_multiset() == left@.to_multiset().add(right@.to_multiset()),
{
    let mut left = left;
    let mut right = right;
    let mut merged: Vec<T> = Vec::new();
    let ghost all = left@.to_multiset().add(right@.to_multiset());
    proof {
        broadcast use group_to_multiset_ensures;

        assert(Seq::<T>::empty().to_multiset() =~= vstd::multiset::Multiset::empty());
        assert(merged@.to_multiset().add(left@.to_multiset()).add(right@.to_multiset()) =~= all);
    }
    while left.len() > 0 || right.len() > 0
        invariant
            in_order(left@, !rising),
            in_order(right@, !rising),
            in_order(merged@, rising),
            forall|i: int| 0 <= i < left@.len() ==> follows(merged@, #[trigger] left@[i], rising),
            forall|i: int| 0 <= i < right@.len() ==> follows(merged@, #[trigger] right@[i], rising),
            merged@.to_multiset().add(left@.to_multiset()).add(right@.to_multiset()) =~= all,
        decreases left.len() + right.len(),
    {
        let from_left = if left.len() == 0 {
            false
        } else if right.len() == 0 {
            true
        } else if rising {
            left[left.len() - 1].at_most(&right[right.len() - 1])
        } else {
            right[right.len() - 1].at_most(&left[left.len() - 1])
        };
        let ghost before = merged@;
        let ghost l = left@;
        let ghost r = right@;
        proof {
            if l.len() > 0 && r.len() > 0 {
                T::lemma_total(l.last(), r.last());
            }
        }
        if from_left {
            if let Some(next) = left.pop() {
                proof {
                    lemma_pop(l);
                    assert(left@ =~= l.drop_last());
                    assert(next == l[l.len() - 1]);
                    lemma_next(before, l, r, next, rising);
                    lemma_next_other(before, l, r, next, rising);
                }
                merged.push(next);
                proof {
                    broadcast use group_to_multiset_ensures;

                    assert(merged@.to_multiset() =~= before.to_multiset().insert(next));
                }
            }
        } else if let Some(next) = right.pop() {
            proof {
                lemma_pop(r);
                assert(right@ =~= r.drop_last());
                assert(next == r[r.len() - 1]);
                lemma_next(before, r, l, next, rising);
                lemma_next_other(before, r, l, next, rising);
            }
            merged.push(next);
            proof {
                broadcast use group_to_multiset_ensures;

                assert(merged@.to_multiset() =~= before.to_multiset().insert(next));
            }
        }
    }
    proof {
        assert(left@ =~= Seq::empty());
        assert(right@ =~= Seq::empty());
        broadcast use group_to_multiset_ensures;

        assert(Seq::<T>::empty().to_multiset() =~= vstd::multiset::Multiset::empty());
        assert(merged@.to_multiset() =~= all);
    }
    merged
}

/// What is left in the sequence that gave up its end may still follow.
proof fn lemma_next<T: Ordered>(merged: Seq<T>, own: Seq<T>, other: Seq<T>, next: T, rising: bool)
    requires
        in_order(own, !rising),
        in_order(merged, rising),
        own.len() > 0,
        next == own.last(),
        forall|i: int| 0 <= i < own.len() ==> follows(merged, #[trigger] own[i], rising),
    ensures
        in_order(merged.push(next), rising),
        forall|i: int|
            0 <= i < own.drop_last().len() ==> follows(
                merged.push(next),
                #[trigger] own.drop_last()[i],
                rising,
            ),
{
    assert(own[own.len() - 1] == next);
    assert(follows(merged, own[own.len() - 1], rising));
    assert forall|i: int| 0 <= i < own.drop_last().len() implies follows(
        merged.push(next),
        #[trigger] own.drop_last()[i],
        rising,
    ) by {
        let a = own[i];
        assert(follows(merged, own[i], rising));
        let n = own.len() - 1;
        assert(if rising { own[n].leq(own[i]) } else { own[i].leq(own[n]) });
    }
}

proof fn lemma_next_other<T: Ordered>(
    merged: Seq<T>,
    own: Seq<T>,
    other: Seq<T>,
    next: T,
    rising: bool,
)
    requires
        in_order(other, !rising),
        forall|i: int| 0 <= i < other.len() ==> follows(merged, #[trigger] other[i], rising),
        other.len() > 0 ==> if rising {
            next.leq(other.last())
        } else {
            other.last().leq(next)
        },
    ensures
        forall|i: int|
            0 <= i < other.len() ==> follows(merged.push(next), #[trigger] other[i], rising),
{
    assert forall|i: int| 0 <= i < other.len() implies follows(
        merged.push(next),
        #[trigger] other[i],
        rising,
    ) by {
        assert(follows(merged, other[i], rising));
        let n = other.len() - 1;
        let m = merged.push(next);
        if i < n {
            assert(if rising { other[n].leq(other[i]) } else { other[i].leq(other[n]) });
            if rising {
                T::lemma_transitive(next, other[n], other[i]);
            } else {
                T::lemma_transitive(other[i], other[n], next);
            }
        }
        assert forall|j: int| 0 <= j < m.len() implies if rising {
            (#[trigger] m[j]).leq(other[i])
        } else {
            other[i].leq(m[j])
        } by {
            if j < merged.len() {
                assert(m[j] == merged[j]);
            }
        }
    }
}

fn sort_halves<T: Ordered>(items: Vec<T>, rising: bool) -> (sorted: Vec<T>)
    ensures
        in_order(sorted@, rising),
        sorted@.to_multiset() == items@.to_multiset(),
    decreases items.len(),
{
    let mut items = items;
    if items.len() <= 1 {
        return items;
    }
    let ghost all = items@;
    let half: usize = items.len() / 2;
    let tail = items.split_off(half);
    proof {
        lemma_multiset_commutative(items@, tail@);
        assert(items@ + tail@ =~= all);
    }
    let left = sort_halves(items, !rising);
    let right = sort_halves(tail, !rising);
    merge(left, right, rising)
}

/// Sorts the items in ascending order.
pub fn sort<T: Ordered>(items: Vec<T>) -> (sorted: Vec<T>)
    ensures
        ascending(sorted@),
        sorted@.to_multiset() == items@.to_multiset(),
        sorted@.len() == items@.len(),
{
    let sorted = sort_halves(items, true);
    proof {
        broadcast use group_to_multiset_ensures;

        assert(sorted@.to_multiset().len() == items@.to_multiset().len());
    }
    sorted
}

/// A sorted sequence holds the elements that the unsorted one held.
pub proof fn lemma_same_elements<T>(a: Seq<T>, b: Seq<T>)
    requires
        a.to_multiset() == b.to_multiset(),
    ensures
        a.len() == b.len(),
        forall|x: T| #[trigger] a.contains(x) <==> b.contains(x),
{
    a.to_multiset_ensures();
    b.to_multiset_ensures();
    assert forall|x: T| #[trigger] a.contains(x) <==> b.contains(x) by {
        vstd::seq_lib::to_multiset_contains(a, x);
        vstd::seq_lib::to_multiset_contains(b, x);
    }
}

impl Ordered for i32 {
    open spec fn leq(self, other: Self) -> bool {
        self <= other
    }

    proof fn lemma_total(a: Self, b: Self) {
    }

    proof fn lemma_transitive(a: Self, b: Self, c: Self) {
    }

    fn at_most(&self, other: &Self) -> (r: bool) {
        *self <= *other
    }
}

} // verus!
