//! Sorting.
use vstd::prelude::*;

verus! {

/// Values that can be put in order.
pub trait Sortable: View + Sized {
    /// `a` may stand before `b`.
    spec fn at_most(a: Self::V, b: Self::V) -> bool;

    proof fn lemma_total(a: Self::V, b: Self::V)
        ensures
            Self::at_most(a, b) || Self::at_most(b, a),
    ;

    proof fn lemma_transitive(a: Self::V, b: Self::V, c: Self::V)
        requires
            Self::at_most(a, b),
            Self::at_most(b, c),
        ensures
            Self::at_most(a, c),
    ;

    /// Whether this value may stand before another.
    fn is_at_most(&self, other: &Self) -> (r: bool)
        ensures
            r == Self::at_most(self@, other@),
    ;
}

/// The values stand in order, or, with `up` false, in reverse order.
pub open spec fn arranged<T: Sortable>(items: Seq<T>, up: bool) -> bool {
    forall|i: int, j: int|
        0 <= i < j < items.len() ==> if up {
            T::at_most(#[trigger] items[i]@, #[trigger] items[j]@)
        } else {
            T::at_most(items[j]@, items[i]@)
        }
}

/// Every value of `left` may stand before every value of `right` (after it, with
/// `up` false).
pub open spec fn apart<T: Sortable>(left: Seq<T>, right: Seq<T>, up: bool) -> bool {
    forall|i: int, j: int|
        0 <= i < left.len() && 0 <= j < right.len() ==> if up {
            T::at_most(#[trigger] left[i]@, #[trigger] right[j]@)
        } else {
            T::at_most(right[j]@, left[i]@)
        }
}

proof fn lemma_move_last<T: Sortable>(out: Seq<T>, from: Seq<T>, other: Seq<T>, up: bool)
    requires
        from.len() > 0,
        arranged(out, up),
        arranged(from, !up),
        arranged(other, !up),
        apart(out, from, up),
        apart(out, other, up),
        other.len() > 0 ==> if up {
            T::at_most(from.last()@, other.last()@)
        } else {
            T::at_most(other.last()@, from.last()@)
        },
    ensures
        arranged(out.push(from.last()), up),
        apart(out.push(from.last()), from.drop_last(), up),
        apart(out.push(from.last()), other, up),
{
    let next = out.push(from.last());
    let rest = from.drop_last();
    assert forall|i: int, j: int|
        0 <= i < j < next.len() implies if up {
            T::at_most(#[trigger] next[i]@, #[trigger] next[j]@)
        } else {
            T::at_most(next[j]@, next[i]@)
        } by {
        assert(next[i] == out[i]);
        if j < out.len() {
            assert(next[j] == out[j]);
        } else {
            assert(next[j] == from[from.len() - 1]);
        }
    }
    assert forall|i: int, j: int|
        0 <= i < next.len() && 0 <= j < rest.len() implies if up {
            T::at_most(#[trigger] next[i]@, #[trigger] rest[j]@)
        } else {
            T::at_most(rest[j]@, next[i]@)
        } by {
        assert(rest[j] == from[j]);
        if i < out.len() {
            assert(next[i] == out[i]);
        } else {
            assert(next[i] == from[from.len() - 1]);
        }
    }
    assert forall|i: int, j: int|
        0 <= i < next.len() && 0 <= j < other.len() implies if up {
            T::at_most(#[trigger] next[i]@, #[trigger] other[j]@)
        } else {
            T::at_most(other[j]@, next[i]@)
        } by {
        if i < out.len() {
            assert(next[i] == out[i]);
        } else {
            let last = other.len() - 1;
            assert(next[i] == from[from.len() - 1]);
            if j < last {
                if up {
                    T::lemma_transitive(from.last()@, other[last]@, other[j]@);
                } else {
                    T::lemma_transitive(other[j]@, other[last]@, from.last()@);
                }
            }
        }
    }
}

/// Merges two arrangements that run the other way.
fn merge<T: Sortable>(left: Vec<T>, right: Vec<T>, up: bool) -> (out: Vec<T>)
    requires
        arranged(left@, !up),
        arranged(right@, !up),
    ensures
        arranged(out@, up),
        out@.to_multiset() == left@.to_multiset().add(right@.to_multiset()),
{
    broadcast use vstd::seq_lib::group_to_multiset_ensures;

    let mut a = left;
    let mut b = right;
    let mut out: Vec<T> = Vec::new();
    assert(out@.to_multiset().add(a@.to_multiset().add(b@.to_multiset()))
        =~= left@.to_multiset().add(right@.to_multiset()));
    while a.len() > 0 || b.len() > 0
        invariant
            arranged(a@, !up),
            arranged(b@, !up),
            arranged(out@, up),
            apart(out@, a@, up),
            apart(out@, b@, up),
            out@.to_multiset().add(a@.to_multiset().add(b@.to_multiset()))
                == left@.to_multiset().add(right@.to_multiset()),
        decreases a.len() + b.len(),
    {
        let from_a: bool = if b.len() == 0 {
            true
        } else if a.len() == 0 {
            false
        } else if up {
            a[a.len() - 1].is_at_most(&b[b.len() - 1])
        } else {
            b[b.len() - 1].is_at_most(&a[a.len() - 1])
        };
        proof {
            if a.len() > 0 && b.len() > 0 {
                T::lemma_total(a@.last()@, b@.last()@);
            }
        }
        let ghost a0 = a@;
        let ghost b0 = b@;
        let ghost out0 = out@;
        if from_a {
            proof {
                lemma_move_last(out@, a@, b@, up);
            }
            match a.pop() {
                Some(item) => {
                    out.push(item);
                    proof {
                        assert(a@ =~= a0.drop_last());
                        assert(a0 =~= a@.push(item));
                        vstd::seq_lib::to_multiset_build(a@, item);
                        vstd::seq_lib::to_multiset_build(out0, item);
                        assert(out@.to_multiset().add(a@.to_multiset().add(b@.to_multiset()))
                            =~= out0.to_multiset().add(a0.to_multiset().add(b0.to_multiset())));
                    }
                },
                None => {},
            }
        } else {
            proof {
                lemma_move_last(out@, b@, a@, up);
            }
            match b.pop() {
                Some(item) => {
                    out.push(item);
                    proof {
                        assert(b@ =~= b0.drop_last());
                        assert(b0 =~= b@.push(item));
                        vstd::seq_lib::to_multiset_build(b@, item);
                        vstd::seq_lib::to_multiset_build(out0, item);
                        assert(out@.to_multiset().add(a@.to_multiset().add(b@.to_multiset()))
                            =~= out0.to_multiset().add(a0.to_multiset().add(b0.to_multiset())));
                    }
                },
                None => {},
            }
        }
    }
    assert(out@.to_multiset().add(a@.to_multiset().add(b@.to_multiset())) =~= out@.to_multiset());
    out
}

/// Puts values in order, or in reverse order.
pub fn sort<T: Sortable>(items: Vec<T>, up: bool) -> (out: Vec<T>)
    ensures
        arranged(out@, up),
        out@.to_multiset() == items@.to_multiset(),
    decreases items.len(),
{
    if items.len() < 2 {
        return items;
    }
    let half: usize = items.len() / 2;
    let ghost all = items@;
    let mut front = items;
    let back = front.split_off(half);
    proof {
        assert(all =~= front@ + back@);
        vstd::seq_lib::lemma_multiset_commutative(front@, back@);
    }
    let left = sort(front, !up);
    let right = sort(back, !up);
    merge(left, right, up)
}

} // verus!
