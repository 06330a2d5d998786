//! The container: an ordered sequence of fragments driven by a growth strategy.
use vstd::prelude::*;
use crate::error::SplitVecError;
use crate::fragment::Fragment;
use crate::growth::Growth;
use crate::lemmas::{extends_in_place, lemma_extension_keeps_coordinates};
use crate::resolve::{
    doubling_coords, full_but_last, lemma_doubling_agrees, lemma_linear_agrees, lemma_locate,
    lemma_flatten_update, lemma_locate_step, linear_coords, locate,
};
use vstd::arithmetic::logarithm::{log, lemma_log0, lemma_log_s};
use vstd::arithmetic::power2::pow2;

verus! {

/// The capacities follow the strategy's own pattern exactly, so that indices
/// can be resolved by formula: all equal for linear growth, `first * 2^k` for
/// doubling growth. Never true of the other strategies.
pub open spec fn follows_pattern(growth: Growth, caps: Seq<nat>) -> bool {
    match growth {
        Growth::Linear { capacity } => forall|k: int|
            0 <= k < caps.len() ==> #[trigger] caps[k] == capacity,
        Growth::Doubling { first } => forall|k: int|
            0 <= k < caps.len() ==> #[trigger] caps[k] == first * pow2(k as nat),
        _ => false,
    }
}

/// A growable sequence whose elements stay where they were first placed.
pub struct SplitVec<T> {
    fragments: Vec<Fragment<T>>,
    growth: Growth,
    len: usize,
    regular: bool,
}

impl<T> View for SplitVec<T> {
    type V = Seq<T>;

    /// The elements of all fragments, in order.
    closed spec fn view(&self) -> Seq<T> {
        self.parts().flatten()
    }
}

impl<T> SplitVec<T> {
    /// The contents of each fragment, in order.
    pub closed spec fn parts(&self) -> Seq<Seq<T>> {
        self.fragments@.map_values(|f: Fragment<T>| f@)
    }

    /// The capacity of each fragment, in order.
    pub closed spec fn caps(&self) -> Seq<nat> {
        self.fragments@.map_values(|f: Fragment<T>| f.cap())
    }

    /// The growth strategy that sizes new fragments.
    pub closed spec fn strategy(&self) -> Growth {
        self.growth
    }

    /// Whether indices are currently resolved by formula rather than by a walk.
    pub closed spec fn by_formula(&self) -> bool {
        self.regular
    }

    /// The container's invariant: a valid strategy, every fragment but the last
    /// full, a non-empty last fragment whenever there are several, and the stored
    /// length equal to the number of elements.
    pub closed spec fn wf(&self) -> bool {
        let n = self.fragments@.len();
        &&& self.growth.valid()
        &&& forall|k: int| 0 <= k < n ==> (#[trigger] self.fragments@[k]).wf()
        &&& full_but_last(self.parts(), self.caps())
        &&& n > 1 ==> self.fragments@[n - 1]@.len() > 0
        &&& forall|k: int| 1 <= k < n ==> #[trigger] self.caps()[k] > 0
        &&& self.len == self@.len()
        &&& self.regular ==> follows_pattern(self.growth, self.caps())
    }

    /// An empty container that grows by `growth`; its first fragment is allocated
    /// on the first push.
    pub fn new(growth: Growth) -> (r: SplitVec<T>)
        requires
            growth.valid(),
        ensures
            r.wf(),
            r@ == Seq::<T>::empty(),
            r.parts().len() == 0,
            r.strategy() == growth,
    {
        let regular = match &growth {
            Growth::Linear { .. } => true,
            Growth::Doubling { .. } => true,
            _ => false,
        };
        let r = SplitVec { fragments: Vec::new(), growth, len: 0, regular };
        assert(r.parts() =~= Seq::<Seq<T>>::empty());
        r
    }

    /// The number of elements.
    pub fn len(&self) -> (r: usize)
        requires
            self.wf(),
        ensures
            r == self@.len(),
    {
        self.len
    }

    /// Whether there are no elements.
    pub fn is_empty(&self) -> (r: bool)
        requires
            self.wf(),
        ensures
            r == (self@.len() == 0),
    {
        self.len == 0
    }

    /// The number of fragments.
    pub fn fragment_count(&self) -> (r: usize)
        ensures
            r == self.parts().len(),
    {
        self.fragments.len()
    }

    /// Appends `value`. When the last fragment is full, or there is none, a new
    /// fragment sized by the growth strategy is added first; no element already
    /// present moves.
    pub fn push(&mut self, value: T)
        requires
            old(self).wf(),
            old(self)@.len() < usize::MAX,
        ensures
            final(self).wf(),
            final(self)@ == old(self)@.push(value),
            final(self).strategy() == old(self).strategy(),
            old(self).parts().len() > 0 && old(self).parts().last().len() < old(self).caps().last()
                ==> final(self).parts() == old(self).parts().drop_last().push(
                old(self).parts().last().push(value),
            ) && final(self).caps() == old(self).caps(),
            (old(self).parts().len() == 0 || old(self).parts().last().len() == old(self).caps().last())
                ==> final(self).parts() == old(self).parts().push(seq![value])
                && final(self).caps() == old(self).caps().push(
                old(self).strategy().next_capacity_spec(
                    old(self).parts().len(),
                    if old(self).parts().len() == 0 { 0 } else { old(self).caps().last() },
                ),
            ),
    {
        proof { self.parts().lemma_flatten_push(seq![value]); }
        let n = self.fragments.len();
        let need_new = n == 0 || self.fragments[n - 1].is_full();
        if need_new {
            let last = if n == 0 { 0 } else { self.fragments[n - 1].capacity() };
            let cap = self.growth.next_capacity(n, last);
            let keeps = match &self.growth {
                Growth::Linear { .. } => true,
                Growth::Doubling { .. } => n == 0 || last <= usize::MAX / 2,
                _ => false,
            };
            proof {
                if self.regular && keeps && n > 0 {
                    if let Growth::Doubling { first } = self.growth {
                        assert(self.caps()[n - 1] == last);
                        vstd::arithmetic::power2::lemma_pow2_unfold(n as nat);
                        assert(first * pow2(n as nat) == 2 * (first * pow2((n - 1) as nat)))
                            by (nonlinear_arith)
                            requires pow2(n as nat) == 2 * pow2((n - 1) as nat);
                    }
                }
                if self.regular && keeps && n == 0 {
                    assert(pow2(0) == 1) by { vstd::arithmetic::power2::lemma2_to64(); }
                }
            }
            let mut fragment = Fragment::new(cap);
            let _ = fragment.push(value);
            self.fragments.push(fragment);
            self.regular = self.regular && keeps;
            proof {
                assert(self.parts() =~= old(self).parts().push(seq![value]));
                assert(self.caps() =~= old(self).caps().push(cap as nat));
                if self.regular {
                    match self.growth {
                        Growth::Linear { capacity } => {
                            assert(cap == capacity);
                        },
                        Growth::Doubling { first } => {
                            if n > 0 {
                                vstd::arithmetic::power2::lemma_pow2_pos((n - 1) as nat);
                                assert(last > 0) by (nonlinear_arith)
                                    requires
                                        last == first * pow2((n - 1) as nat),
                                        first > 0,
                                        pow2((n - 1) as nat) > 0;
                                assert(cap == 2 * last);
                            }
                            assert(cap == first * pow2(n as nat));
                        },
                        _ => {},
                    }
                }
            }
        } else {
            let mut fragment = self.fragments.pop().unwrap();
            let _ = fragment.push(value);
            self.fragments.push(fragment);
            proof {
                self.parts().drop_last().lemma_flatten_push(self.parts().last());
                old(self).parts().drop_last().lemma_flatten_push(old(self).parts().last());
                assert(old(self).parts().drop_last().push(old(self).parts().last()) =~= old(self).parts());
                assert(self.parts() =~= old(self).parts().drop_last().push(
                    old(self).parts().last().push(value)));
                assert(self.caps() =~= old(self).caps());
                assert(self.parts().drop_last() =~= old(self).parts().drop_last());
            }
        }
        self.len = self.len + 1;
    }

    /// Resolves `index` by walking the fragments' lengths until the running total
    /// first exceeds it.
    pub fn locate_by_scan(&self, index: usize) -> (r: (usize, usize))
        requires
            self.wf(),
            index < self@.len(),
        ensures
            r.0 as int == locate(self.parts(), index as int).0,
            r.1 as int == locate(self.parts(), index as int).1,
    {
        let n = self.fragments.len();
        let ghost parts = self.parts();
        let mut k: usize = 0;
        let mut rem: usize = index;
        proof {
            assert(parts.subrange(0, n as int) =~= parts);
        }
        while k < n
            invariant
                n == parts.len(),
                parts == self.parts(),
                k <= n,
                rem <= index,
                rem < parts.subrange(k as int, n as int).flatten().len(),
                locate(parts, index as int) == (
                    k + locate(parts.subrange(k as int, n as int), rem as int).0,
                    locate(parts.subrange(k as int, n as int), rem as int).1,
                ),
            decreases n - k,
        {
            let l = self.fragments[k].len();
            proof {
                lemma_locate_step(parts, k as int, rem as int);
            }
            if rem < l {
                return (k, rem);
            }
            rem = rem - l;
            k = k + 1;
        }
        proof {
            assert(parts.subrange(n as int, n as int).flatten().len() == 0);
        }
        (k, rem)
    }

    /// Resolves `index` by division when every fragment holds `capacity` elements.
    pub fn locate_linear(capacity: usize, index: usize) -> (r: (usize, usize))
        requires
            capacity > 0,
        ensures
            r.0 as int == linear_coords(capacity as int, index as int).0,
            r.1 as int == linear_coords(capacity as int, index as int).1,
    {
        (index / capacity, index % capacity)
    }

    /// Resolves `index` by formula when the first fragment holds `first` elements
    /// and each later one twice its predecessor: the fragment is the integer
    /// base-2 logarithm of `index / first + 1`.
    pub fn locate_doubling(first: usize, index: usize) -> (r: (usize, usize))
        requires
            first > 0,
            index < usize::MAX,
        ensures
            r.0 as int == doubling_coords(first as int, index as int).0,
            r.1 as int == doubling_coords(first as int, index as int).1,
    {
        let q: usize = index / first + 1;
        proof {
            assert(index / first <= index) by (nonlinear_arith)
                requires first > 0;
        }
        let mut t: usize = q;
        let mut k: usize = 0;
        let mut p: usize = 1;
        proof {
            assert(pow2(0) == 1) by { vstd::arithmetic::power2::lemma2_to64(); }
        }
        while t >= 2
            invariant
                1 <= t <= q,
                k < 64,
                p == pow2(k as nat),
                1 <= p <= q,
                p * t <= q,
                log(2, q as int) == k + log(2, t as int),
            decreases t,
        {
            proof {
                lemma_log_s(2, t as int);
                vstd::arithmetic::power2::lemma_pow2_unfold((k + 1) as nat);
                assert(p * 2 * (t / 2) <= p * t) by (nonlinear_arith)
                    requires t >= 2, p >= 0;
                assert(p * 2 <= p * (t / 2) * 2) by (nonlinear_arith)
                    requires t >= 2, p >= 0;
                assert(p * 2 <= q) by (nonlinear_arith)
                    requires p * 2 * (t / 2) <= p * t, p * t <= q, t >= 2, p >= 1;
                assert(k + 1 < 64) by {
                    vstd::arithmetic::power2::lemma2_to64();
                    if k + 1 >= 64 {
                        vstd::arithmetic::power2::lemma_pow2_strictly_increases(63, (k + 1) as nat);
                    }
                }
            }
            t = t / 2;
            k = k + 1;
            p = p * 2;
        }
        proof {
            lemma_log0(2, t as int);
            assert(first * (p - 1) <= index) by (nonlinear_arith)
                requires p <= q, q == index / first + 1, first > 0;
        }
        (k, index - first * (p - 1))
    }


    /// The coordinates `(fragment, offset)` of `index`, or `None` when `index` is
    /// not below the length. While the capacities follow the linear or doubling
    /// pattern the coordinates come from a formula, otherwise from a walk; both
    /// give the same pair.
    pub fn fragment_and_inner_index(&self, index: usize) -> (r: Option<(usize, usize)>)
        requires
            self.wf(),
        ensures
            index >= self@.len() ==> r is None,
            index < self@.len() ==> (r matches Some(c) && c.0 as int == locate(
                self.parts(),
                index as int,
            ).0 && c.1 as int == locate(self.parts(), index as int).1),
    {
        if index >= self.len {
            return None;
        }
        if self.regular {
            match &self.growth {
                Growth::Linear { capacity } => {
                    proof {
                        lemma_linear_agrees(self.parts(), self.caps(), *capacity as int, index as int);
                    }
                    return Some(Self::locate_linear(*capacity, index));
                },
                Growth::Doubling { first } => {
                    proof {
                        lemma_doubling_agrees(self.parts(), self.caps(), *first as int, index as int);
                    }
                    return Some(Self::locate_doubling(*first, index));
                },
                _ => {},
            }
        }
        Some(self.locate_by_scan(index))
    }

    /// The element at `index`, or `None` when `index` is not below the length.
    pub fn get(&self, index: usize) -> (r: Option<&T>)
        requires
            self.wf(),
        ensures
            index < self@.len() ==> r == Some(&self@[index as int]),
            index >= self@.len() ==> r is None,
    {
        match self.fragment_and_inner_index(index) {
            None => None,
            Some((f, i)) => {
                proof {
                    lemma_locate(self.parts(), index as int);
                }
                self.fragments[f].get(i)
            },
        }
    }

    /// The element at `index`, or `IndexOutOfBounds` when `index` is not below the length.
    pub fn try_get(&self, index: usize) -> (r: Result<&T, SplitVecError>)
        requires
            self.wf(),
        ensures
            index < self@.len() ==> r == Ok::<&T, SplitVecError>(&self@[index as int]),
            index >= self@.len() ==> r == Err::<&T, SplitVecError>(SplitVecError::IndexOutOfBounds),
    {
        match self.get(index) {
            Some(x) => Ok(x),
            None => Err(SplitVecError::IndexOutOfBounds),
        }
    }

    /// The element at offset `inner` of fragment `fragment`, or `None` when either is
    /// out of range.
    pub fn get_at(&self, fragment: usize, inner: usize) -> (r: Option<&T>)
        requires
            self.wf(),
        ensures
            fragment < self.parts().len() && inner < self.parts()[fragment as int].len() ==> r
                == Some(&self.parts()[fragment as int][inner as int]),
            !(fragment < self.parts().len() && inner < self.parts()[fragment as int].len())
                ==> r is None,
    {
        if fragment < self.fragments.len() {
            self.fragments[fragment].get(inner)
        } else {
            None
        }
    }

    /// Removes and returns the last element, or `None` when empty. A fragment left
    /// empty is released unless it is the only one.
    pub fn pop(&mut self) -> (r: Option<T>)
        requires
            old(self).wf(),
        ensures
            final(self).wf(),
            final(self).strategy() == old(self).strategy(),
            old(self)@.len() == 0 ==> r is None && final(self)@ == old(self)@ && final(self).parts()
                == old(self).parts(),
            old(self)@.len() > 0 ==> r == Some(old(self)@.last()) && final(self)@ == old(
                self,
            )@.drop_last(),
            old(self).parts().len() > 0 ==> final(self).parts().len() > 0,
            final(self)@.len() == 0 ==> final(self).parts().len() <= 1,
    {
        let n = self.fragments.len();
        if n == 0 {
            return None;
        }
        let ghost old_parts = self.parts();
        proof {
            old_parts.drop_last().lemma_flatten_push(old_parts.last());
            assert(old_parts.drop_last().push(old_parts.last()) =~= old_parts);
        }
        let mut last = self.fragments.pop().unwrap();
        proof {
            assert(self.parts() =~= old_parts.drop_last());
            assert(self.caps() =~= old(self).caps().drop_last());
        }
        if last.len() == 0 {
            self.fragments.push(last);
            proof {
                assert(self.parts() =~= old_parts);
                assert(self.caps() =~= old(self).caps());
                assert(old_parts.drop_last().len() == 0 || n == 1);
                if n == 1 {
                    assert(old_parts.drop_last().flatten() =~= Seq::<T>::empty());
                }
            }
            return None;
        }
        let r = last.pop();
        if last.len() == 0 && n > 1 {
            proof {
                assert(old_parts[n - 2].len() == old(self).caps()[n - 2]);
                assert(n - 2 >= 1 ==> old(self).caps()[n - 2] > 0);
                let rest = old_parts.drop_last();
                if n > 2 {
                    rest.drop_last().lemma_flatten_push(rest.last());
                    assert(rest.drop_last().push(rest.last()) =~= rest);
                    assert(rest.last().len() > 0);
                }
                assert(old_parts.last().drop_last() =~= Seq::<T>::empty());
                assert(old(self)@.drop_last() =~= old_parts.drop_last().flatten());
            }
        } else {
            self.fragments.push(last);
            proof {
                old_parts.drop_last().lemma_flatten_push(old_parts.last().drop_last());
                assert(self.parts() =~= old_parts.drop_last().push(old_parts.last().drop_last()));
                assert(self.caps() =~= old(self).caps());
                assert(old(self)@.drop_last() =~= old_parts.drop_last().flatten() + old_parts.last().drop_last());
            }
        }
        self.len = self.len - 1;
        r
    }


    /// Replaces the element at `index`, or reports `IndexOutOfBounds` and changes
    /// nothing when `index` is not below the length.
    pub fn set(&mut self, index: usize, value: T) -> (r: Result<(), SplitVecError>)
        requires
            old(self).wf(),
        ensures
            final(self).wf(),
            final(self).strategy() == old(self).strategy(),
            final(self).caps() == old(self).caps(),
            final(self).parts().len() == old(self).parts().len(),
            index < old(self)@.len() ==> r is Ok && final(self)@ == old(self)@.update(index as int, value),
            index >= old(self)@.len() ==> r == Err::<(), SplitVecError>(SplitVecError::IndexOutOfBounds)
                && final(self)@ == old(self)@,
    {
        match self.fragment_and_inner_index(index) {
            None => Err(SplitVecError::IndexOutOfBounds),
            Some((f, i)) => {
                let ghost old_parts = self.parts();
                proof {
                    lemma_locate(old_parts, index as int);
                }
                self.fragments[f].set(i, value);
                proof {
                    assert(self.parts() =~= old_parts.update(f as int, old_parts[f as int].update(i as int, value)));
                    assert(self.caps() =~= old(self).caps());
                    lemma_flatten_update(old_parts, index as int, value);
                }
                Ok(())
            },
        }
    }

    /// `w` is `self` with element `i` of fragment `f` replaced, and nothing else changed.
    closed spec fn replaced_at(&self, w: SplitVec<T>, f: int, i: int) -> bool {
        &&& w.growth == self.growth
        &&& w.len == self.len
        &&& w.regular == self.regular
        &&& 0 <= f < self.fragments@.len()
        &&& w.fragments@ == self.fragments@.update(f, w.fragments@[f])
        &&& w.fragments@[f].wf()
        &&& w.fragments@[f].cap() == self.fragments@[f].cap()
        &&& w.fragments@[f]@ == self.fragments@[f]@.update(i, w.fragments@[f]@[i])
    }

    /// Replacing the element that `index` resolves to keeps the invariant and
    /// changes the elements at `index` only.
    proof fn lemma_replaced_at(&self, index: int, f: int, i: int)
        requires
            self.wf(),
            0 <= index < self@.len(),
            locate(self.parts(), index) == (f, i),
        ensures
            forall|w: SplitVec<T>| self.replaced_at(w, f, i) ==> #[trigger] w.wf(),
            forall|w: SplitVec<T>| self.replaced_at(w, f, i) ==> #[trigger] w@ == self@.update(
                index,
                w.fragments@[f]@[i],
            ),
            forall|w: SplitVec<T>| self.replaced_at(w, f, i) ==> #[trigger] w.strategy()
                == self.strategy() && w.parts().len() == self.parts().len(),
    {
        lemma_locate(self.parts(), index);
        assert forall|w: SplitVec<T>| self.replaced_at(w, f, i) implies #[trigger] w.wf() && w@
            == self@.update(index, w.fragments@[f]@[i]) by {
            let v = w.fragments@[f]@[i];
            assert(w.parts() =~= self.parts().update(f, self.parts()[f].update(i, v)));
            assert(w.caps() =~= self.caps());
            lemma_flatten_update(self.parts(), index, v);
        }
        assert forall|w: SplitVec<T>| self.replaced_at(w, f, i) implies #[trigger] w@ == self@.update(
            index,
            w.fragments@[f]@[i],
        ) by {
            let v = w.fragments@[f]@[i];
            assert(w.parts() =~= self.parts().update(f, self.parts()[f].update(i, v)));
            lemma_flatten_update(self.parts(), index, v);
        }
    }

    /// A mutable reference to the element at `index`, or `None` when `index` is not
    /// below the length. Writing through it changes that element only.
    pub fn get_mut(&mut self, index: usize) -> (r: Option<&mut T>)
        requires
            old(self).wf(),
        ensures
            final(self).wf(),
            final(self).strategy() == old(self).strategy(),
            final(self).parts().len() == old(self).parts().len(),
            index < old(self)@.len() ==> (r matches Some(e) && *e == old(self)@[index as int]
                && final(self)@ == old(self)@.update(index as int, *final(e))),
            index >= old(self)@.len() ==> r is None && final(self)@ == old(self)@,
    {
        match self.fragment_and_inner_index(index) {
            None => None,
            Some((f, i)) => {
                proof {
                    lemma_locate(self.parts(), index as int);
                    self.lemma_replaced_at(index as int, f as int, i as int);
                }
                self.fragments[f].get_mut(i)
            },
        }
    }

    /// The length of each fragment, in order.
    pub fn fragment_lengths(&self) -> (r: Vec<usize>)
        ensures
            r@.len() == self.parts().len(),
            forall|k: int| 0 <= k < r@.len() ==> #[trigger] r@[k] == self.parts()[k].len(),
    {
        let mut r: Vec<usize> = Vec::new();
        let mut k: usize = 0;
        while k < self.fragments.len()
            invariant
                k <= self.fragments@.len(),
                r@.len() == k,
                forall|j: int| 0 <= j < k ==> #[trigger] r@[j] == self.parts()[j].len(),
            decreases self.fragments@.len() - k,
        {
            r.push(self.fragments[k].len());
            k = k + 1;
        }
        r
    }

    /// The capacity of each fragment, in order.
    pub fn fragment_capacities(&self) -> (r: Vec<usize>)
        ensures
            r@.len() == self.caps().len(),
            forall|k: int| 0 <= k < r@.len() ==> #[trigger] r@[k] == self.caps()[k],
    {
        let mut r: Vec<usize> = Vec::new();
        let mut k: usize = 0;
        while k < self.fragments.len()
            invariant
                k <= self.fragments@.len(),
                r@.len() == k,
                forall|j: int| 0 <= j < k ==> #[trigger] r@[j] == self.caps()[j],
            decreases self.fragments@.len() - k,
        {
            r.push(self.fragments[k].capacity());
            k = k + 1;
        }
        r
    }

    /// Pushes every element of `values`, in order.
    pub fn extend(&mut self, values: Vec<T>)
        requires
            old(self).wf(),
            old(self)@.len() + values@.len() <= usize::MAX,
        ensures
            final(self).wf(),
            final(self).strategy() == old(self).strategy(),
            final(self)@ == old(self)@ + values@,
    {
        let ghost orig = values@;
        let n = values.len();
        let mut values = values;
        let mut stack: Vec<T> = Vec::new();
        while values.len() > 0
            invariant
                n == orig.len(),
                values@ == orig.subrange(0, values@.len() as int),
                stack@.len() + values@.len() == n,
                forall|j: int| 0 <= j < stack@.len() ==> #[trigger] stack@[j] == orig[n - 1 - j],
            decreases values@.len(),
        {
            let x = values.pop().unwrap();
            stack.push(x);
        }
        proof {
            assert(orig.subrange(0, 0) =~= Seq::<T>::empty());
            assert(self@ =~= old(self)@ + orig.subrange(0, 0));
        }
        while stack.len() > 0
            invariant
                self.wf(),
                self.strategy() == old(self).strategy(),
                n == orig.len(),
                stack@.len() <= n,
                forall|j: int| 0 <= j < stack@.len() ==> #[trigger] stack@[j] == orig[n - 1 - j],
                self@ == old(self)@ + orig.subrange(0, n - stack@.len()),
                old(self)@.len() + n <= usize::MAX,
            decreases stack@.len(),
        {
            let ghost s = stack@.len();
            let x = stack.pop().unwrap();
            self.push(x);
            proof {
                assert(orig.subrange(0, n - s + 1) =~= orig.subrange(0, n - s).push(orig[n - s]));
            }
        }
        proof {
            assert(orig.subrange(0, n as int) =~= orig);
        }
    }

    /// Adopts `buffer` without copying as the only fragment, with the buffer's
    /// allocated capacity; `growth` sizes the fragments added afterwards.
    pub fn from_contiguous(buffer: Vec<T>, growth: Growth) -> (r: SplitVec<T>)
        requires
            growth.valid(),
        ensures
            r.wf(),
            r@ == buffer@,
            r.parts() == seq![buffer@],
            r.caps().len() == 1,
            r.caps()[0] >= buffer@.len(),
            r.strategy() == growth,
    {
        let len = buffer.len();
        let fragment = Fragment::from_vec(buffer);
        let cap = fragment.capacity();
        let regular = match &growth {
            Growth::Linear { capacity } => cap == *capacity,
            Growth::Doubling { first } => cap == *first,
            _ => false,
        };
        let mut fragments: Vec<Fragment<T>> = Vec::new();
        fragments.push(fragment);
        let r = SplitVec { fragments, growth, len, regular };
        proof {
            assert(r.parts() =~= seq![buffer@]);
            assert(r.caps() =~= seq![cap as nat]);
            r.parts().lemma_flatten_singleton();
            assert(pow2(0) == 1) by { vstd::arithmetic::power2::lemma2_to64(); }
            if let Growth::Doubling { first } = r.growth {
                assert(first * pow2(0) == first) by (nonlinear_arith)
                    requires pow2(0) == 1;
            }
        }
        r
    }

    /// Copies the elements, in order, into one contiguous vector and gives up the
    /// container: addresses taken before no longer hold.
    pub fn into_contiguous(self) -> (r: Vec<T>)
        requires
            self.wf(),
        ensures
            r@ == self@,
    {
        let ghost parts = self.parts();
        let mut out: Vec<T> = Vec::with_capacity(self.len);
        let mut fragments = self.fragments;
        let n = fragments.len();
        let mut k: usize = 0;
        proof {
            assert(parts.subrange(0, 0) =~= Seq::<Seq<T>>::empty());
        }
        while k < n
            invariant
                n == fragments@.len(),
                n == parts.len(),
                k <= n,
                forall|j: int| k <= j < n ==> (#[trigger] fragments@[j])@ == parts[j] && fragments@[j].wf(),
                out@ == parts.subrange(0, k as int).flatten(),
            decreases n - k,
        {
            fragments[k].move_into(&mut out);
            proof {
                parts.subrange(0, k as int).lemma_flatten_push(parts[k as int]);
                assert(parts.subrange(0, k + 1) =~= parts.subrange(0, k as int).push(parts[k as int]));
            }
            k = k + 1;
        }
        proof {
            assert(parts.subrange(0, n as int) =~= parts);
        }
        out
    }

    /// Copies the elements, in order, into one contiguous vector and gives up the
    /// container.
    pub fn to_vec(self) -> (r: Vec<T>)
        requires
            self.wf(),
        ensures
            r@ == self@,
    {
        self.into_contiguous()
    }

}

/// A push leaves every element already present where it was: same fragment,
/// same offset, same value.
pub proof fn lemma_push_keeps_coordinates<T>(a: SplitVec<T>, b: SplitVec<T>, x: T, i: int)
    requires
        a.wf(),
        b.parts() == a.parts().drop_last().push(a.parts().last().push(x)) || b.parts()
            == a.parts().push(seq![x]),
        0 <= i < a@.len(),
    ensures
        locate(b.parts(), i) == locate(a.parts(), i),
        b.parts()[locate(a.parts(), i).0][locate(a.parts(), i).1] == a@[i],
{
    let (p, q) = (a.parts(), b.parts());
    lemma_locate(p, i);
    if p.len() > 0 {
        if q == p.drop_last().push(p.last().push(x)) {
            assert(q[p.len() - 1].subrange(0, p[p.len() - 1].len() as int) =~= p[p.len() - 1]);
        } else {
            assert(q[p.len() - 1].subrange(0, p[p.len() - 1].len() as int) =~= p[p.len() - 1]);
        }
    }
    assert(extends_in_place(p, q));
    lemma_extension_keeps_coordinates(p, q, i);
    lemma_locate(q, i);
}

/// At all times every fragment but the last is full, and none holds more than
/// its capacity.
pub proof fn lemma_fragments_full_but_last<T>(v: SplitVec<T>)
    requires
        v.wf(),
    ensures
        full_but_last(v.parts(), v.caps()),
{
}

/// While indices are resolved by formula, the formula and the walk over fragment
/// lengths give the same coordinates for every valid index.
pub proof fn lemma_resolvers_agree<T>(v: SplitVec<T>, i: int)
    requires
        v.wf(),
        v.by_formula(),
        0 <= i < v@.len(),
    ensures
        v.strategy() is Linear || v.strategy() is Doubling,
        v.strategy() matches Growth::Linear { capacity } ==> locate(v.parts(), i)
            == linear_coords(capacity as int, i),
        v.strategy() matches Growth::Doubling { first } ==> locate(v.parts(), i)
            == doubling_coords(first as int, i),
{
    match v.strategy() {
        Growth::Linear { capacity } => {
            lemma_linear_agrees(v.parts(), v.caps(), capacity as int, i);
        },
        Growth::Doubling { first } => {
            lemma_doubling_agrees(v.parts(), v.caps(), first as int, i);
        },
        _ => {},
    }
}

/// A container that adopted `buffer` as its only fragment holds exactly the
/// buffer's elements in the buffer's order, so copying it out gives the buffer back.
pub proof fn lemma_adopted_round_trip<T>(v: SplitVec<T>, buffer: Seq<T>)
    requires
        v.wf(),
        v.parts() == seq![buffer],
    ensures
        v@ == buffer,
        v.parts().len() == 1,
{
    v.parts().lemma_flatten_singleton();
}

} // verus!
