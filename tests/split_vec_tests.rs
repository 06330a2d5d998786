use split_vec::error::SplitVecError;
use split_vec::fragment::Fragment;
use split_vec::growth::Growth;
use split_vec::split_vec::SplitVec;

fn filled(growth: Growth, n: usize) -> SplitVec<usize> {
    let mut v = SplitVec::new(growth);
    for i in 0..n {
        v.push(i);
    }
    v
}

fn lcg(state: &mut u64) -> u64 {
    *state = state.wrapping_mul(6364136223846793005).wrapping_add(1442695040888963407);
    *state >> 33
}

#[test]
fn linear_capacity_four_scenario() {
    let v = filled(Growth::linear(4).unwrap(), 10);
    assert_eq!(v.fragment_lengths(), vec![4, 4, 2]);
    assert_eq!(v.fragment_capacities(), vec![4, 4, 4]);
    assert_eq!(v.fragment_and_inner_index(7), Some((1, 3)));
    assert_eq!(v.get(7), Some(&7));
    assert_eq!(v.fragment_and_inner_index(9), Some((2, 1)));
    assert_eq!(v.get(9), Some(&9));
    assert_eq!(v.get(10), None);
    assert_eq!(v.try_get(10), Err(SplitVecError::IndexOutOfBounds));
    assert_eq!(v.fragment_and_inner_index(10), None);
    assert_eq!(v.get_at(1, 3), Some(&7));
    assert_eq!(v.get_at(2, 2), None);
    assert_eq!(v.get_at(3, 0), None);
}

#[test]
fn doubling_from_one_scenario() {
    let v = filled(Growth::doubling(1).unwrap(), 7);
    assert_eq!(v.fragment_capacities(), vec![1, 2, 4]);
    assert_eq!(v.fragment_lengths(), vec![1, 2, 4]);
    assert_eq!(v.len(), 7);
    assert_eq!(v.fragment_and_inner_index(6), Some((2, 3)));
    assert_eq!(v.get(6), Some(&6));
}

#[test]
fn get_returns_each_pushed_value() {
    let strategies = vec![
        Growth::linear(3).unwrap(),
        Growth::doubling(2).unwrap(),
        Growth::exponential(2, 3, 2).unwrap(),
        Growth::custom(vec![1, 5, 2]).unwrap(),
    ];
    for growth in strategies {
        let v = filled(growth, 50);
        assert_eq!(v.len(), 50);
        for i in 0..50 {
            assert_eq!(v.get(i), Some(&i));
            assert_eq!(v.try_get(i), Ok(&i));
        }
        assert_eq!(v.get(50), None);
        assert_eq!(v.get(51), None);
        assert_eq!(v.try_get(50), Err(SplitVecError::IndexOutOfBounds));
    }
}

#[test]
fn elements_keep_their_coordinates_across_pushes() {
    let mut v = SplitVec::new(Growth::doubling(1).unwrap());
    let mut seen: Vec<(usize, usize)> = Vec::new();
    for i in 0..40usize {
        v.push(i * 10);
        seen.push(v.fragment_and_inner_index(i).unwrap());
        let address = format!("{:p}", v.get(0).unwrap());
        for _ in 0..3 {
            v.push(0);
            v.pop();
        }
        assert_eq!(format!("{:p}", v.get(0).unwrap()), address);
    }
    let first = format!("{:p}", v.get(3).unwrap());
    for i in 40..200usize {
        v.push(i * 10);
    }
    assert_eq!(format!("{:p}", v.get(3).unwrap()), first);
    for (i, c) in seen.iter().enumerate() {
        assert_eq!(v.fragment_and_inner_index(i), Some(*c));
        assert_eq!(v.get(i), Some(&(i * 10)));
    }
}

#[test]
fn every_fragment_but_the_last_is_full() {
    let strategies = vec![
        Growth::linear(5).unwrap(),
        Growth::doubling(3).unwrap(),
        Growth::exponential(1, 5, 4).unwrap(),
        Growth::custom(vec![2, 7]).unwrap(),
    ];
    for growth in strategies {
        let mut v = SplitVec::new(growth);
        for i in 0..100usize {
            v.push(i);
            let lens = v.fragment_lengths();
            let caps = v.fragment_capacities();
            let n = lens.len();
            for k in 0..n - 1 {
                assert_eq!(lens[k], caps[k]);
            }
            assert!(lens[n - 1] <= caps[n - 1]);
            assert!(lens[n - 1] > 0);
            assert_eq!(lens.iter().sum::<usize>(), v.len());
        }
    }
}

#[test]
fn formula_and_walk_resolve_alike() {
    let mut state: u64 = 7;
    for _ in 0..30 {
        let c = (lcg(&mut state) % 9 + 1) as usize;
        let n = (lcg(&mut state) % 200) as usize;
        let linear = filled(Growth::linear(c).unwrap(), n);
        let doubling = filled(Growth::doubling(c).unwrap(), n);
        for i in 0..n {
            let scan = linear.locate_by_scan(i);
            assert_eq!(SplitVec::<usize>::locate_linear(c, i), scan);
            assert_eq!(linear.fragment_and_inner_index(i), Some(scan));
            let scan = doubling.locate_by_scan(i);
            assert_eq!(SplitVec::<usize>::locate_doubling(c, i), scan);
            assert_eq!(doubling.fragment_and_inner_index(i), Some(scan));
        }
    }
}

#[test]
fn doubling_formula_values() {
    assert_eq!(SplitVec::<u8>::locate_doubling(1, 0), (0, 0));
    assert_eq!(SplitVec::<u8>::locate_doubling(1, 2), (1, 1));
    assert_eq!(SplitVec::<u8>::locate_doubling(1, 3), (2, 0));
    assert_eq!(SplitVec::<u8>::locate_doubling(3, 9), (2, 0));
    assert_eq!(SplitVec::<u8>::locate_doubling(3, 20), (2, 11));
    assert_eq!(SplitVec::<u8>::locate_doubling(3, 21), (3, 0));
    assert_eq!(SplitVec::<u8>::locate_linear(4, 7), (1, 3));
}

#[test]
fn adopting_a_buffer_and_copying_out_round_trips() {
    let mut buffer: Vec<char> = Vec::with_capacity(10);
    buffer.extend_from_slice(&['a', 'b', 'c']);
    let capacity = buffer.capacity();
    let v = SplitVec::from_contiguous(buffer, Growth::linear(4).unwrap());
    assert_eq!(v.fragment_count(), 1);
    assert_eq!(v.fragment_capacities(), vec![capacity]);
    assert_eq!(v.fragment_lengths(), vec![3]);
    assert_eq!(v.into_contiguous(), vec!['a', 'b', 'c']);
}

#[test]
fn adopted_buffer_then_growth() {
    let v0: Vec<u32> = vec![1, 2];
    let cap = v0.capacity();
    let mut v = SplitVec::from_contiguous(v0, Growth::doubling(2).unwrap());
    for x in 3..=(cap as u32 + 3) {
        v.push(x);
    }
    assert_eq!(v.fragment_capacities()[0], cap);
    assert_eq!(v.fragment_count(), 2);
    assert_eq!(v.fragment_capacities()[1], 2 * cap);
    let out = v.to_vec();
    let expected: Vec<u32> = (1..=(cap as u32 + 3)).collect();
    assert_eq!(out, expected);
}

#[test]
fn to_vec_keeps_order() {
    let mut v = SplitVec::new(Growth::linear(4).unwrap());
    v.extend(vec!['a', 'b', 'c']);
    assert_eq!(v.fragment_count(), 1);
    assert_eq!(v.to_vec(), vec!['a', 'b', 'c']);

    let v = filled(Growth::linear(4).unwrap(), 10);
    assert_eq!(v.get_at(0, 3), Some(&3));
    assert_eq!(v.to_vec(), vec![0, 1, 2, 3, 4, 5, 6, 7, 8, 9]);
}

#[test]
fn popping_every_push_leaves_one_empty_fragment() {
    let mut v = filled(Growth::linear(3).unwrap(), 10);
    assert_eq!(v.fragment_count(), 4);
    for i in (0..10).rev() {
        assert_eq!(v.pop(), Some(i));
    }
    assert_eq!(v.len(), 0);
    assert!(v.is_empty());
    assert_eq!(v.fragment_count(), 1);
    assert_eq!(v.fragment_lengths(), vec![0]);
    assert_eq!(v.pop(), None);
    assert_eq!(v.fragment_count(), 1);
}

#[test]
fn pop_releases_emptied_fragments() {
    let mut v = filled(Growth::linear(2).unwrap(), 5);
    assert_eq!(v.fragment_lengths(), vec![2, 2, 1]);
    assert_eq!(v.pop(), Some(4));
    assert_eq!(v.fragment_lengths(), vec![2, 2]);
    assert_eq!(v.pop(), Some(3));
    assert_eq!(v.fragment_lengths(), vec![2, 1]);
    let mut empty: SplitVec<u8> = SplitVec::new(Growth::linear(2).unwrap());
    assert_eq!(empty.pop(), None);
    assert_eq!(empty.fragment_count(), 0);
}

#[test]
fn set_replaces_one_element() {
    let mut v = filled(Growth::linear(4).unwrap(), 10);
    assert_eq!(v.set(1, 101), Ok(()));
    assert_eq!(v.set(7, 107), Ok(()));
    assert_eq!(v.set(8, 108), Ok(()));
    assert_eq!(v.set(10, 1), Err(SplitVecError::IndexOutOfBounds));
    assert_eq!(v.to_vec(), vec![0, 101, 2, 3, 4, 5, 6, 107, 108, 9]);
}

#[test]
fn extend_appends_in_order() {
    let mut v = SplitVec::new(Growth::exponential(1, 2, 1).unwrap());
    v.extend(vec![5, 6, 7]);
    v.extend(Vec::new());
    v.extend(vec![8]);
    assert_eq!(v.fragment_lengths(), vec![1, 2, 1]);
    assert_eq!(v.to_vec(), vec![5, 6, 7, 8]);
}

#[test]
fn invalid_growth_parameters_are_refused() {
    assert!(matches!(Growth::linear(0), Err(SplitVecError::InvalidGrowthParameter)));
    assert!(matches!(Growth::doubling(0), Err(SplitVecError::InvalidGrowthParameter)));
    assert!(matches!(Growth::exponential(0, 3, 2), Err(SplitVecError::InvalidGrowthParameter)));
    assert!(matches!(Growth::exponential(1, 2, 2), Err(SplitVecError::InvalidGrowthParameter)));
    assert!(matches!(Growth::exponential(1, 3, 0), Err(SplitVecError::InvalidGrowthParameter)));
    assert!(matches!(Growth::custom(vec![]), Err(SplitVecError::InvalidGrowthParameter)));
    assert!(matches!(Growth::custom(vec![2, 0]), Err(SplitVecError::InvalidGrowthParameter)));
    assert!(Growth::custom(vec![2, 1]).is_ok());
}

#[test]
fn next_capacity_formulas() {
    let linear = Growth::linear(6).unwrap();
    assert_eq!(linear.next_capacity(0, 0), 6);
    assert_eq!(linear.next_capacity(5, 6), 6);
    let doubling = Growth::doubling(3).unwrap();
    assert_eq!(doubling.next_capacity(0, 0), 3);
    assert_eq!(doubling.next_capacity(1, 3), 6);
    assert_eq!(doubling.next_capacity(1, 0), 1);
    assert_eq!(doubling.next_capacity(9, usize::MAX / 2 + 1), usize::MAX);
    let exponential = Growth::exponential(2, 3, 2).unwrap();
    assert_eq!(exponential.next_capacity(0, 0), 2);
    assert_eq!(exponential.next_capacity(1, 2), 3);
    assert_eq!(exponential.next_capacity(2, 3), 5);
    assert_eq!(exponential.next_capacity(3, 5), 8);
    let slow = Growth::exponential(1, 11, 10).unwrap();
    assert_eq!(slow.next_capacity(1, 1), 2);
    assert_eq!(slow.next_capacity(4, usize::MAX), usize::MAX);
    let custom = Growth::custom(vec![1, 3]).unwrap();
    assert_eq!(custom.next_capacity(0, 0), 1);
    assert_eq!(custom.next_capacity(1, 1), 3);
    assert_eq!(custom.next_capacity(7, 3), 3);
}

#[test]
fn fragment_refuses_push_when_full() {
    let mut f: Fragment<u8> = Fragment::new(2);
    assert_eq!(f.push(1), Ok(()));
    assert!(!f.is_full());
    assert_eq!(f.push(2), Ok(()));
    assert!(f.is_full());
    assert_eq!(f.push(3), Err(SplitVecError::CapacityExceeded));
    assert_eq!(f.len(), 2);
    assert_eq!(f.capacity(), 2);
    assert_eq!(f.get(1), Some(&2));
    assert_eq!(f.get(2), None);
    f.set(0, 9);
    assert_eq!(f.pop(), Some(2));
    assert_eq!(f.into_vec(), vec![9]);
}

#[test]
fn fragment_adopts_vector_capacity() {
    let mut data: Vec<u8> = Vec::with_capacity(16);
    data.push(4);
    let cap = data.capacity();
    let f = Fragment::from_vec(data);
    assert_eq!(f.capacity(), cap);
    assert!(f.capacity() >= 16);
    assert_eq!(f.len(), 1);
}

#[test]
fn get_mut_writes_one_element() {
    let mut v = filled(Growth::doubling(1).unwrap(), 10);
    *v.get_mut(5).unwrap() += 100;
    *v.get_mut(0).unwrap() += 100;
    assert!(v.get_mut(10).is_none());
    assert_eq!(v.to_vec(), vec![100, 1, 2, 3, 4, 105, 6, 7, 8, 9]);

    let mut f: Fragment<u8> = Fragment::new(3);
    f.push(1).unwrap();
    *f.get_mut(0).unwrap() = 7;
    assert!(f.get_mut(1).is_none());
    assert_eq!(f.into_vec(), vec![7]);
}
