//! Index resolution: from a global index to a (fragment, offset) pair.
use vstd::prelude::*;
use vstd::arithmetic::div_mod::{
    lemma_div_denominator, lemma_fundamental_div_mod, lemma_fundamental_div_mod_converse,
    lemma_mod_pos_bound,
};
use vstd::arithmetic::logarithm::{log, lemma_log0, lemma_log_s};
use vstd::arithmetic::power2::{pow2, lemma_pow2_unfold};

verus! {

/// The coordinates of global index `i` found by walking the fragments in order:
/// the first fragment whose running total of lengths exceeds `i`, and the offset
/// of `i` inside it. An index on a boundary belongs to the next fragment.
pub open spec fn locate<T>(parts: Seq<Seq<T>>, i: int) -> (int, int)
    decreases parts.len(),
{
    if parts.len() == 0 || i < parts[0].len() {
        (0, i)
    } else {
        let r = locate(parts.drop_first(), i - parts[0].len());
        (r.0 + 1, r.1)
    }
}

/// Every fragment but the last is filled to its capacity, and none exceeds it.
pub open spec fn full_but_last<T>(parts: Seq<Seq<T>>, caps: Seq<nat>) -> bool {
    &&& parts.len() == caps.len()
    &&& forall|k: int| 0 <= k < parts.len() ==> #[trigger] parts[k].len() <= caps[k]
    &&& forall|k: int| 0 <= k < parts.len() - 1 ==> #[trigger] parts[k].len() == caps[k]
}

/// The coordinates of index `i` when every fragment holds `c` elements.
pub open spec fn linear_coords(c: int, i: int) -> (int, int) {
    (i / c, i % c)
}

/// The number of elements in the first `k` fragments when the first holds `f`
/// and each later one twice its predecessor.
pub open spec fn doubling_offset(f: int, k: nat) -> int {
    f * (pow2(k) - 1)
}

/// The coordinates of index `i` when the first fragment holds `f` elements and
/// each later one twice its predecessor: fragment `k` is the integer base-2
/// logarithm of `i / f + 1`.
pub open spec fn doubling_coords(f: int, i: int) -> (int, int) {
    let k = log(2, i / f + 1);
    (k, i - doubling_offset(f, k as nat))
}

/// Whatever index is asked for, the walk lands inside a fragment, on the element
/// that the flattened sequence holds at that index.
pub proof fn lemma_locate<T>(parts: Seq<Seq<T>>, i: int)
    requires
        0 <= i < parts.flatten().len(),
    ensures
        0 <= locate(parts, i).0 < parts.len(),
        0 <= locate(parts, i).1 < parts[locate(parts, i).0].len(),
        parts.flatten()[i] == parts[locate(parts, i).0][locate(parts, i).1],
    decreases parts.len(),
{
    if parts.len() > 0 {
        assert(parts.flatten() == parts[0] + parts.drop_first().flatten());
        if i >= parts[0].len() {
            lemma_locate(parts.drop_first(), i - parts[0].len());
        }
    }
}

/// Walking from fragment `k` on is one step of walking from fragment `k - 1`.
pub proof fn lemma_locate_step<T>(parts: Seq<Seq<T>>, k: int, rem: int)
    requires
        0 <= k < parts.len(),
    ensures
        rem < parts[k].len() ==> locate(parts.subrange(k, parts.len() as int), rem) == (0int, rem),
        rem >= parts[k].len() ==> locate(parts.subrange(k, parts.len() as int), rem) == (
            locate(parts.subrange(k + 1, parts.len() as int), rem - parts[k].len()).0 + 1,
            locate(parts.subrange(k + 1, parts.len() as int), rem - parts[k].len()).1,
        ),
        parts.subrange(k, parts.len() as int).flatten() == parts[k] + parts.subrange(
            k + 1,
            parts.len() as int,
        ).flatten(),
{
    let s = parts.subrange(k, parts.len() as int);
    assert(s.drop_first() =~= parts.subrange(k + 1, parts.len() as int));
    assert(s[0] == parts[k]);
    assert(s.flatten() == s[0] + s.drop_first().flatten());
}

/// Under linear growth with every fragment of capacity `c`, the walk and the
/// division `(i / c, i % c)` give the same coordinates.
pub proof fn lemma_linear_agrees<T>(parts: Seq<Seq<T>>, caps: Seq<nat>, c: int, i: int)
    requires
        c > 0,
        full_but_last(parts, caps),
        forall|k: int| 0 <= k < caps.len() ==> #[trigger] caps[k] == c,
        0 <= i < parts.flatten().len(),
    ensures
        locate(parts, i) == linear_coords(c, i),
    decreases parts.len(),
{
    if parts.len() == 0 {
        assert(parts.flatten().len() == 0);
    }
    assert(parts.flatten() == parts[0] + parts.drop_first().flatten());
    assert(parts[0].len() <= caps[0]);
    if i < parts[0].len() {
        lemma_fundamental_div_mod_converse(i, c, 0, i);
    } else {
        if parts.len() == 1 {
            assert(parts.drop_first().flatten() =~= Seq::<T>::empty());
        }
        assert(parts[0].len() == caps[0]);
        let rest = parts.drop_first();
        let rcaps = caps.drop_first();
        assert forall|k: int| 0 <= k < rest.len() implies #[trigger] rest[k].len() <= rcaps[k] by {
            assert(parts[k + 1].len() <= caps[k + 1]);
        }
        assert forall|k: int| 0 <= k < rest.len() - 1 implies #[trigger] rest[k].len() == rcaps[k] by {
            assert(parts[k + 1].len() == caps[k + 1]);
        }
        assert forall|k: int| 0 <= k < rcaps.len() implies #[trigger] rcaps[k] == c by {
            assert(caps[k + 1] == c);
        }
        lemma_linear_agrees(rest, rcaps, c, i - c);
        lemma_fundamental_div_mod(i - c, c);
        lemma_mod_pos_bound(i - c, c);
        assert(i == ((i - c) / c + 1) * c + (i - c) % c) by (nonlinear_arith)
            requires
                i - c == c * ((i - c) / c) + (i - c) % c;
        lemma_fundamental_div_mod_converse(i, c, (i - c) / c + 1, (i - c) % c);
    }
}

/// Under doubling growth from a first capacity `f`, the walk and the logarithm
/// formula give the same coordinates.
pub proof fn lemma_doubling_agrees<T>(parts: Seq<Seq<T>>, caps: Seq<nat>, f: int, i: int)
    requires
        f > 0,
        full_but_last(parts, caps),
        forall|k: int| 0 <= k < caps.len() ==> #[trigger] caps[k] == f * pow2(k as nat),
        0 <= i < parts.flatten().len(),
    ensures
        locate(parts, i) == doubling_coords(f, i),
    decreases parts.len(),
{
    if parts.len() == 0 {
        assert(parts.flatten().len() == 0);
    }
    assert(parts.flatten() == parts[0] + parts.drop_first().flatten());
    assert(parts[0].len() <= caps[0]);
    assert(pow2(0) == 1) by { vstd::arithmetic::power2::lemma2_to64(); }
    assert(caps[0] == f * pow2(0));
    assert(f * pow2(0) == f) by (nonlinear_arith)
        requires
            pow2(0) == 1;
    if i < parts[0].len() {
        lemma_fundamental_div_mod_converse(i, f, 0, i);
        lemma_log0(2, 1);
        assert(doubling_offset(f, 0) == 0);
    } else {
        if parts.len() == 1 {
            assert(parts.drop_first().flatten() =~= Seq::<T>::empty());
        }
        assert(parts[0].len() == caps[0]);
        let rest = parts.drop_first();
        let rcaps = caps.drop_first();
        let g = 2 * f;
        assert forall|k: int| 0 <= k < rest.len() implies #[trigger] rest[k].len() <= rcaps[k] by {
            assert(parts[k + 1].len() <= caps[k + 1]);
        }
        assert forall|k: int| 0 <= k < rest.len() - 1 implies #[trigger] rest[k].len() == rcaps[k] by {
            assert(parts[k + 1].len() == caps[k + 1]);
        }
        assert forall|k: int| 0 <= k < rcaps.len() implies #[trigger] rcaps[k] == g * pow2(k as nat) by {
            assert(caps[k + 1] == f * pow2((k + 1) as nat));
            lemma_pow2_unfold((k + 1) as nat);
            assert(f * pow2((k + 1) as nat) == g * pow2(k as nat)) by (nonlinear_arith)
                requires pow2((k + 1) as nat) == 2 * pow2(k as nat), g == 2 * f;
        }
        lemma_doubling_agrees(rest, rcaps, g, i - f);
        // i / f == (i - f) / f + 1, and (i - f) / g == ((i - f) / f) / 2
        lemma_fundamental_div_mod(i - f, f);
        lemma_mod_pos_bound(i - f, f);
        assert(i == ((i - f) / f + 1) * f + (i - f) % f) by (nonlinear_arith)
            requires
                i - f == f * ((i - f) / f) + (i - f) % f;
        lemma_fundamental_div_mod_converse(i, f, (i - f) / f + 1, (i - f) % f);
        lemma_div_denominator(i - f, f, 2);
        let x = (i - f) / f;
        assert(x >= 0) by (nonlinear_arith) requires i - f >= 0, f > 0, x == (i - f) / f;
        let q = i / f + 1;
        assert(q == x + 2);
        assert(q / 2 == x / 2 + 1);
        assert((i - f) / g == x / 2);
        lemma_log_s(2, q);
        let k1 = log(2, (i - f) / g + 1);
        assert(log(2, q) == 1 + k1);
        vstd::arithmetic::logarithm::lemma_log_nonnegative(2, (i - f) / g + 1);
        lemma_pow2_unfold((k1 + 1) as nat);
        assert((i - f) - doubling_offset(g, k1 as nat) == i - doubling_offset(f, (k1 + 1) as nat))
            by (nonlinear_arith)
            requires
                pow2((k1 + 1) as nat) == 2 * pow2(k1 as nat),
                g == 2 * f,
                doubling_offset(g, k1 as nat) == g * (pow2(k1 as nat) - 1),
                doubling_offset(f, (k1 + 1) as nat) == f * (pow2((k1 + 1) as nat) - 1);
    }
}

/// Changing one element inside a fragment changes the flattened sequence at the
/// index that resolves to it, and nowhere else.
pub proof fn lemma_flatten_update<T>(parts: Seq<Seq<T>>, i: int, v: T)
    requires
        0 <= i < parts.flatten().len(),
    ensures
        parts.update(
            locate(parts, i).0,
            parts[locate(parts, i).0].update(locate(parts, i).1, v),
        ).flatten() == parts.flatten().update(i, v),
    decreases parts.len(),
{
    lemma_locate(parts, i);
    let (f, j) = locate(parts, i);
    let np = parts.update(f, parts[f].update(j, v));
    assert(parts.flatten() == parts[0] + parts.drop_first().flatten());
    assert(np.flatten() == np[0] + np.drop_first().flatten());
    if i < parts[0].len() {
        assert(np.drop_first() =~= parts.drop_first());
        assert(np.flatten() =~= parts.flatten().update(i, v));
    } else {
        let r = locate(parts.drop_first(), i - parts[0].len());
        assert(f == r.0 + 1 && j == r.1);
        lemma_locate(parts.drop_first(), i - parts[0].len());
        lemma_flatten_update(parts.drop_first(), i - parts[0].len(), v);
        let rest = parts.drop_first();
        assert(0 < f < parts.len());
        assert(rest[f - 1] == parts[f]);
        let nrest = rest.update(f - 1, rest[f - 1].update(j, v));
        assert forall|k: int| 0 <= k < nrest.len() implies #[trigger] np.drop_first()[k] == nrest[k] by {
            assert(np.drop_first()[k] == np[k + 1]);
        }
        assert(np.drop_first() =~= nrest);
        assert(np.flatten() =~= parts.flatten().update(i, v));
    }
}

} // verus!
