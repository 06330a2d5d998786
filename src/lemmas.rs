//! Facts that relate the container's operations to one another.
use vstd::prelude::*;
use crate::resolve::{lemma_locate, locate};

verus! {

/// `q` extends `p` in place: the same fragments, except that the last fragment of
/// `p` may have grown at its end and fragments may have been added after it.
pub open spec fn extends_in_place<T>(p: Seq<Seq<T>>, q: Seq<Seq<T>>) -> bool {
    &&& q.len() >= p.len()
    &&& forall|k: int| 0 <= k < p.len() - 1 ==> #[trigger] q[k] == p[k]
    &&& p.len() > 0 ==> q[p.len() - 1].len() >= p[p.len() - 1].len() && q[p.len() - 1].subrange(
        0,
        p[p.len() - 1].len() as int,
    ) == p[p.len() - 1]
}

/// Growing fragments in place keeps every existing element at the same
/// (fragment, offset) coordinates, holding the same value.
pub proof fn lemma_extension_keeps_coordinates<T>(p: Seq<Seq<T>>, q: Seq<Seq<T>>, i: int)
    requires
        extends_in_place(p, q),
        0 <= i < p.flatten().len(),
    ensures
        locate(q, i) == locate(p, i),
        0 <= i < q.flatten().len(),
        q.flatten()[i] == p.flatten()[i],
    decreases p.len(),
{
    lemma_locate(p, i);
    if p.len() == 0 {
        assert(p.flatten().len() == 0);
    }
    assert(p.flatten() == p[0] + p.drop_first().flatten());
    assert(q.flatten() == q[0] + q.drop_first().flatten());
    if p.len() == 1 {
        assert(p.drop_first().flatten() =~= Seq::<T>::empty());
        assert(q[0].subrange(0, p[0].len() as int) == p[0]);
        assert(q[0][i] == q[0].subrange(0, p[0].len() as int)[i]);
    } else {
        assert(q[0] == p[0]);
        if i >= p[0].len() {
            let (pr, qr) = (p.drop_first(), q.drop_first());
            assert forall|k: int| 0 <= k < pr.len() - 1 implies #[trigger] qr[k] == pr[k] by {
                assert(q[k + 1] == p[k + 1]);
            }
            assert(qr[pr.len() - 1] == q[p.len() - 1]);
            lemma_extension_keeps_coordinates(pr, qr, i - p[0].len());
        }
    }
}

/// The elements after pushing each value of `xs` in turn onto a container holding
/// `start`: each `SplitVec::push` appends its value to the view.
pub open spec fn pushed_all<T>(start: Seq<T>, xs: Seq<T>) -> Seq<T>
    decreases xs.len(),
{
    if xs.len() == 0 {
        start
    } else {
        pushed_all(start.push(xs[0]), xs.drop_first())
    }
}

/// The elements after `n` calls of `SplitVec::pop` on a container holding `s`:
/// each removes the last element, and one on an empty container changes nothing.
pub open spec fn popped<T>(s: Seq<T>, n: nat) -> Seq<T>
    decreases n,
{
    if n == 0 || s.len() == 0 {
        s
    } else {
        popped(s.drop_last(), (n - 1) as nat)
    }
}

/// Pushes append in order: after pushing `xs` one at a time, the elements are
/// the old ones followed by `xs`.
pub proof fn lemma_pushes_append<T>(start: Seq<T>, xs: Seq<T>)
    ensures
        pushed_all(start, xs) == start + xs,
    decreases xs.len(),
{
    if xs.len() > 0 {
        lemma_pushes_append(start.push(xs[0]), xs.drop_first());
        assert(start.push(xs[0]) + xs.drop_first() =~= start + xs);
    }
}

/// After pushing `xs` one at a time onto an empty container, index `i` holds
/// exactly the `i`-th value pushed, and there are exactly `xs.len()` elements.
pub proof fn lemma_pushes_read_back<T>(xs: Seq<T>)
    ensures
        pushed_all(Seq::<T>::empty(), xs).len() == xs.len(),
        forall|i: int| 0 <= i < xs.len() ==> #[trigger] pushed_all(Seq::<T>::empty(), xs)[i] == xs[i],
{
    lemma_pushes_append(Seq::<T>::empty(), xs);
    assert(Seq::<T>::empty() + xs =~= xs);
}

/// Popping as many times as values were pushed gives back the elements held
/// before the pushes; from an empty container, an empty one.
pub proof fn lemma_pops_undo_pushes<T>(start: Seq<T>, xs: Seq<T>)
    ensures
        popped(pushed_all(start, xs), xs.len()) == start,
    decreases xs.len(),
{
    lemma_pushes_append(start, xs);
    if xs.len() > 0 {
        let s = start + xs;
        assert(s.drop_last() =~= start + xs.drop_last());
        lemma_pushes_append(start, xs.drop_last());
        lemma_pops_undo_pushes(start, xs.drop_last());
    }
}

} // verus!
