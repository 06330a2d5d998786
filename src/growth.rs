//! Growth strategies: the policy that sizes each new fragment.
use vstd::prelude::*;
use crate::error::SplitVecError;

verus! {

/// Caps a computed capacity at the largest representable count.
pub open spec fn saturate(x: int) -> nat {
    if x > usize::MAX {
        usize::MAX as nat
    } else if x < 0 {
        0
    } else {
        x as nat
    }
}

/// The smallest integer not below `a * numer / denom`.
pub open spec fn ceil_ratio(a: int, numer: int, denom: int) -> int
    recommends
        denom > 0,
{
    (a * numer + denom - 1) / denom
}

/// The policy that decides the capacity of each fragment the container allocates.
pub enum Growth {
    /// Every fragment holds `capacity` elements.
    Linear { capacity: usize },
    /// The first fragment holds `first` elements and each later one twice its predecessor.
    Doubling { first: usize },
    /// The first fragment holds `first` elements; each later one holds the predecessor's
    /// capacity times `numer / denom`, rounded up, and at least one more than it.
    Exponential { first: usize, numer: usize, denom: usize },
    /// Fragment `k` holds `capacities[k]` elements; past the end of the table the
    /// last entry is used.
    Custom { capacities: Vec<usize> },
}

impl Growth {
    /// The parameters are positive, and an exponential factor is above one.
    pub open spec fn valid(&self) -> bool {
        match self {
            Growth::Linear { capacity } => *capacity > 0,
            Growth::Doubling { first } => *first > 0,
            Growth::Exponential { first, numer, denom } => *first > 0 && *denom > 0 && *numer
                > *denom,
            Growth::Custom { capacities } => capacities@.len() > 0 && forall|k: int|
                0 <= k < capacities@.len() ==> #[trigger] capacities@[k] > 0,
        }
    }

    /// The capacity of the fragment allocated after `count` fragments, the last of
    /// which has capacity `last` (ignored when `count` is zero).
    pub open spec fn next_capacity_spec(&self, count: nat, last: nat) -> nat {
        match self {
            Growth::Linear { capacity } => *capacity as nat,
            Growth::Doubling { first } => if count == 0 {
                *first as nat
            } else if last == 0 {
                1
            } else {
                saturate(2 * last as int)
            },
            Growth::Exponential { first, numer, denom } => if count == 0 {
                *first as nat
            } else {
                let c = ceil_ratio(last as int, *numer as int, *denom as int);
                saturate(if c > last + 1 { c } else { last + 1 as int })
            },
            Growth::Custom { capacities } => {
                let n = capacities@.len();
                if count < n {
                    capacities@[count as int] as nat
                } else {
                    capacities@[n - 1] as nat
                }
            },
        }
    }

    /// A strategy of fragments that all hold `capacity` elements.
    pub fn linear(capacity: usize) -> (r: Result<Growth, SplitVecError>)
        ensures
            capacity == 0 ==> r == Err::<Growth, SplitVecError>(SplitVecError::InvalidGrowthParameter),
            capacity > 0 ==> (r matches Ok(g) && g == (Growth::Linear { capacity })),
            r matches Ok(g) ==> g.valid(),
    {
        if capacity == 0 {
            Err(SplitVecError::InvalidGrowthParameter)
        } else {
            Ok(Growth::Linear { capacity })
        }
    }

    /// A strategy whose fragment capacities double, starting from `first`.
    pub fn doubling(first: usize) -> (r: Result<Growth, SplitVecError>)
        ensures
            first == 0 ==> r == Err::<Growth, SplitVecError>(SplitVecError::InvalidGrowthParameter),
            first > 0 ==> (r matches Ok(g) && g == (Growth::Doubling { first })),
            r matches Ok(g) ==> g.valid(),
    {
        if first == 0 {
            Err(SplitVecError::InvalidGrowthParameter)
        } else {
            Ok(Growth::Doubling { first })
        }
    }

    /// A strategy whose fragment capacities grow by the factor `numer / denom`,
    /// starting from `first`.
    pub fn exponential(first: usize, numer: usize, denom: usize) -> (r: Result<
        Growth,
        SplitVecError,
    >)
        ensures
            (first == 0 || denom == 0 || numer <= denom) ==> r == Err::<Growth, SplitVecError>(
                SplitVecError::InvalidGrowthParameter,
            ),
            (first > 0 && denom > 0 && numer > denom) ==> (r matches Ok(g) && g == (
            Growth::Exponential { first, numer, denom })),
            r matches Ok(g) ==> g.valid(),
    {
        if first == 0 || denom == 0 || numer <= denom {
            Err(SplitVecError::InvalidGrowthParameter)
        } else {
            Ok(Growth::Exponential { first, numer, denom })
        }
    }

    /// A strategy that reads fragment `k`'s capacity from `capacities[k]`, and
    /// repeats the last entry beyond the table.
    pub fn custom(capacities: Vec<usize>) -> (r: Result<Growth, SplitVecError>)
        ensures
            (capacities@.len() == 0 || exists|k: int|
                0 <= k < capacities@.len() && capacities@[k] == 0) ==> r == Err::<
                Growth,
                SplitVecError,
            >(SplitVecError::InvalidGrowthParameter),
            (capacities@.len() > 0 && forall|k: int|
                0 <= k < capacities@.len() ==> capacities@[k] > 0) ==> (r matches Ok(g)
                && g == (Growth::Custom { capacities })),
            r matches Ok(g) ==> g.valid(),
    {
        if capacities.len() == 0 {
            return Err(SplitVecError::InvalidGrowthParameter);
        }
        let mut k: usize = 0;
        while k < capacities.len()
            invariant
                0 <= k <= capacities@.len(),
                forall|j: int| 0 <= j < k ==> capacities@[j] > 0,
            decreases capacities@.len() - k,
        {
            if capacities[k] == 0 {
                return Err(SplitVecError::InvalidGrowthParameter);
            }
            k = k + 1;
        }
        Ok(Growth::Custom { capacities })
    }

    /// The capacity of the next fragment, given how many fragments exist and the
    /// capacity of the last of them. Doubling and exponential growth saturate at
    /// the largest representable count instead of overflowing.
    pub fn next_capacity(&self, count: usize, last: usize) -> (r: usize)
        requires
            self.valid(),
        ensures
            r == self.next_capacity_spec(count as nat, last as nat),
            r > 0,
    {
        match self {
            Growth::Linear { capacity } => *capacity,
            Growth::Doubling { first } => {
                if count == 0 {
                    *first
                } else if last == 0 {
                    1
                } else if last > usize::MAX / 2 {
                    usize::MAX
                } else {
                    2 * last
                }
            },
            Growth::Exponential { first, numer, denom } => {
                if count == 0 {
                    *first
                } else {
                    let a: u128 = last as u128;
                    let n: u128 = *numer as u128;
                    let d: u128 = *denom as u128;
                    assert(a * n <= (usize::MAX as u128) * (usize::MAX as u128)) by (nonlinear_arith)
                        requires a <= usize::MAX, n <= usize::MAX;
                    assert((usize::MAX as u128) * (usize::MAX as u128) + (usize::MAX as u128) < u128::MAX)
                        by (nonlinear_arith);
                    let c: u128 = (a * n + d - 1) / d;
                    let m: u128 = if c > a + 1 { c } else { a + 1 };
                    if m > usize::MAX as u128 {
                        usize::MAX
                    } else {
                        m as usize
                    }
                }
            },
            Growth::Custom { capacities } => {
                let n = capacities.len();
                if count < n {
                    capacities[count]
                } else {
                    capacities[n - 1]
                }
            },
        }
    }
}

} // verus!
