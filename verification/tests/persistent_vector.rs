use state_game::persistent_vector::{Iter, PersistentVector};
use std::sync::Arc;

fn forward(mut iter: Iter<i32>) -> Vec<i32> {
    let mut out = Vec::new();
    while let Some(x) = iter.next() {
        out.push(*x);
    }
    out
}

fn backward(mut iter: Iter<i32>) -> Vec<i32> {
    let mut out = Vec::new();
    while let Some(x) = iter.next_back() {
        out.push(*x);
    }
    out
}

fn forward_usize(mut iter: Iter<usize>) -> Vec<usize> {
    let mut out = Vec::new();
    while let Some(x) = iter.next() {
        out.push(*x);
    }
    out
}

fn rand(seed: &mut u64) -> usize {
    *seed = seed
        .wrapping_mul(6364136223846793005)
        .wrapping_add(1442695040888963407);

    (*seed >> 32) as usize
}

#[test]
fn test_new_and_empty() {
    let vec: PersistentVector<i32> = PersistentVector::new();
    assert_eq!(vec.len(), 0);
    assert!(vec.is_empty());
    assert_eq!(vec.height(), 0);
    assert_eq!(vec.first(), None);
    assert_eq!(vec.last(), None);
    assert_eq!(vec.get(0), None);
}

#[test]
fn test_push_and_persistence() {
    let v0: PersistentVector<i32> = PersistentVector::new();
    let v1 = v0.push(Arc::new(10));
    let v2 = v1.push(Arc::new(20));
    let v3 = v2.push(Arc::new(30));

    assert_eq!(v0.len(), 0);
    assert_eq!(v1.len(), 1);
    assert_eq!(v2.len(), 2);
    assert_eq!(v3.len(), 3);

    assert_eq!(*v1.get(0).unwrap(), 10);

    assert_eq!(*v2.get(0).unwrap(), 10);
    assert_eq!(*v2.get(1).unwrap(), 20);

    assert_eq!(*v3.get(0).unwrap(), 10);
    assert_eq!(*v3.get(1).unwrap(), 20);
    assert_eq!(*v3.get(2).unwrap(), 30);

    assert_eq!(*v3.first().unwrap(), 10);
    assert_eq!(*v3.last().unwrap(), 30);
}

#[test]
fn test_large_push_and_tree_expansion() {
    let mut vec = PersistentVector::new();
    let count = 200;

    for i in 0..count {
        vec = vec.push(Arc::new(i));
        assert_eq!(vec.len(), i + 1);
        assert_eq!(*vec.get(i).unwrap(), i);
    }

    assert_eq!(vec.len(), count);
    assert!(vec.height() > 0);

    for i in 0..count {
        assert_eq!(*vec.get(i).unwrap(), i);
    }
}

#[test]
fn test_set_and_update() {
    let mut vec = PersistentVector::new();
    for i in 0..20 {
        vec = vec.push(Arc::new(i * 10));
    }

    let vec_set = vec.set(5, 999).unwrap();
    assert_eq!(*vec.get(5).unwrap(), 50);
    assert_eq!(*vec_set.get(5).unwrap(), 999);
    assert_eq!(vec_set.len(), 20);

    assert!(vec.set(100, 500).is_err());

    let vec_updated = vec.update(5, |val| val + 1).unwrap();
    assert_eq!(*vec_updated.get(5).unwrap(), 51);
    assert!(vec.update(100, |val| val + 1).is_err());
}

#[test]
fn test_pop() {
    let mut vec = PersistentVector::new();
    for i in 0..15 {
        vec = vec.push(Arc::new(i));
    }

    let mut current = vec;
    for i in (0..15).rev() {
        assert_eq!(current.len(), i + 1);
        assert_eq!(*current.last().unwrap(), i);
        current = current.pop().unwrap();
    }

    assert_eq!(current.len(), 0);
    assert!(current.is_empty());
    assert!(current.pop().is_none());
}

#[test]
fn test_truncate_and_clear() {
    let mut vec = PersistentVector::new();
    for i in 0..30 {
        vec = vec.push(Arc::new(i));
    }

    let truncated = vec.truncate(10);
    assert_eq!(truncated.len(), 10);
    assert_eq!(vec.len(), 30);

    for i in 0..10 {
        assert_eq!(*truncated.get(i).unwrap(), i);
    }

    let cleared = vec.clear();
    assert_eq!(cleared.len(), 0);
    assert!(cleared.is_empty());
}

#[test]
fn test_structure_modifications() {
    let mut vec1 = PersistentVector::new();
    for i in 0..5 {
        vec1 = vec1.push(Arc::new(i));
    }

    let mut vec2 = PersistentVector::new();
    for i in 5..10 {
        vec2 = vec2.push(Arc::new(i));
    }

    let appended = vec1.append(&vec2);
    assert_eq!(appended.len(), 10);
    for i in 0..10 {
        assert_eq!(*appended.get(i).unwrap(), i);
    }

    let inserted = vec1.insert(2, 99);
    assert_eq!(inserted.len(), 6);
    assert_eq!(*inserted.get(2).unwrap(), 99);
    assert_eq!(*inserted.get(3).unwrap(), 2);

    let removed = inserted.remove(2);
    assert_eq!(removed.len(), 5);
    assert_eq!(*removed.get(2).unwrap(), 2);
}

#[test]
fn test_iterators() {
    let mut vec = PersistentVector::new();
    for i in 0..25 {
        vec = vec.push(Arc::new(i));
    }

    let forward_vals: Vec<i32> = forward(vec.iter());
    let expected: Vec<i32> = (0..25).collect();
    assert_eq!(forward_vals, expected);

    let backward_vals: Vec<i32> = backward(vec.iter());
    let expected_rev: Vec<i32> = (0..25).rev().collect();
    assert_eq!(backward_vals, expected_rev);

    let by_reference: Vec<i32> = forward((&vec).iter());
    assert_eq!(by_reference, expected);

    let mut iter = vec.iter();
    assert_eq!(iter.len(), 25);
    iter.next();
    assert_eq!(iter.len(), 24);
}

#[test]
fn test_sorting_functions() {
    let nums = vec![42, 12, 88, 3, 15, 27, 99, 1];
    let mut vec = PersistentVector::new();
    for &n in &nums {
        vec = vec.push(Arc::new(n));
    }

    let sorted: Vec<i32> = forward(vec.sort().iter());
    assert_eq!(sorted, vec![1, 3, 12, 15, 27, 42, 88, 99]);

    let sorted_unstable: Vec<i32> = forward(vec.sort_unstable().iter());
    assert_eq!(sorted_unstable, vec![1, 3, 12, 15, 27, 42, 88, 99]);

    let sorted_by: Vec<i32> = forward(vec.sort_by(|a, b| b.cmp(a)).iter());
    assert_eq!(sorted_by, vec![99, 88, 42, 27, 15, 12, 3, 1]);

    let sorted_key: Vec<i32> = forward(vec.sort_by_key(|&x| x % 10).iter());
    assert_eq!(*sorted_key.first().unwrap(), 1);

    let sorted_cached: Vec<i32> = forward(vec.sort_by_cached_key(|&x| x.to_string()).iter());
    assert_eq!(sorted_cached.len(), nums.len());
}

#[test]
fn test_random_operations_against_vec() {
    let mut pv = PersistentVector::new();
    let mut vec = Vec::new();

    let mut seed = 0x12345678u64;

    for _ in 0..10000 {
        match rand(&mut seed) % 5 {
            0 => {
                let value = rand(&mut seed) as i32;

                pv = pv.push(Arc::new(value));
                vec.push(value);
            }
            1 => {
                if !vec.is_empty() {
                    let index = rand(&mut seed) % vec.len();
                    let value = rand(&mut seed) as i32;

                    pv = pv.set(index, value).unwrap();
                    vec[index] = value;
                }
            }
            2 => {
                if !vec.is_empty() {
                    pv = pv.pop().unwrap();
                    vec.pop();
                }
            }
            3 => {
                if !vec.is_empty() {
                    let index = rand(&mut seed) % vec.len();

                    assert_eq!(*pv.get(index).unwrap(), vec[index]);
                }
            }
            4 => {
                let collected: Vec<_> = forward(pv.iter());

                assert_eq!(collected, vec);
            }
            _ => unreachable!(),
        }

        assert_eq!(pv.len(), vec.len());

        for i in 0..vec.len() {
            assert_eq!(*pv.get(i).unwrap(), vec[i]);
        }
    }
}

#[test]
fn test_large_tree_integrity() {
    let mut pv = PersistentVector::new();

    let count = 100_000;

    for i in 0..count {
        pv = pv.push(Arc::new(i));
    }

    assert_eq!(pv.len(), count);

    for i in 0..count {
        assert_eq!(*pv.get(i).unwrap(), i);
    }

    let collected: Vec<_> = forward_usize(pv.iter());

    assert_eq!(collected.len(), count);

    assert_eq!(collected[0], 0);

    assert_eq!(collected[count - 1], count - 1);
}

#[test]
fn test_persistence_after_many_versions() {
    let mut versions = Vec::new();

    let mut current = PersistentVector::new();

    for i in 0..1000 {
        current = current.push(Arc::new(i));
        versions.push(current.clone());
    }

    for (index, version) in versions.iter().enumerate() {
        assert_eq!(version.len(), index + 1);

        assert_eq!(*version.last().unwrap(), index);
    }
}

#[test]
fn test_set_does_not_mutate_previous_version() {
    let mut original = PersistentVector::new();

    for i in 0..100 {
        original = original.push(Arc::new(i));
    }

    let modified = original.set(50, 999).unwrap();

    assert_eq!(*original.get(50).unwrap(), 50);

    assert_eq!(*modified.get(50).unwrap(), 999);

    for i in 0..100 {
        if i != 50 {
            assert_eq!(*original.get(i).unwrap(), *modified.get(i).unwrap());
        }
    }
}

#[test]
fn test_iterator_exact_size_and_double_end() {
    let mut pv = PersistentVector::new();

    for i in 0..100 {
        pv = pv.push(Arc::new(i));
    }

    let mut iter = pv.iter();

    assert_eq!(iter.len(), 100);

    assert_eq!(*iter.next().unwrap(), 0);

    assert_eq!(*iter.next_back().unwrap(), 99);

    assert_eq!(iter.len(), 98);

    let rest: Vec<_> = forward(iter);

    assert_eq!(rest.len(), 98);
}

#[test]
fn test_sort_preserves_original() {
    let mut pv = PersistentVector::new();

    for i in [5, 1, 9, 3, 7] {
        pv = pv.push(Arc::new(i));
    }

    let sorted = pv.sort();

    assert_eq!(forward(pv.iter()), vec![5, 1, 9, 3, 7]);

    assert_eq!(forward(sorted.iter()), vec![1, 3, 5, 7, 9]);
}

#[test]
fn height_grows_when_root_is_full() {
    let mut pv: PersistentVector<u32> = PersistentVector::new();
    assert_eq!(pv.capacity(), 1);
    for i in 0..32 {
        pv = pv.push(Arc::new(i));
    }
    assert_eq!(pv.height(), 0);
    pv = pv.push(Arc::new(32));
    assert_eq!(pv.height(), 1);
    assert_eq!(pv.capacity(), 32);
    for i in 33..(32 * 32) {
        pv = pv.push(Arc::new(i));
    }
    assert_eq!(pv.height(), 1);
    pv = pv.push(Arc::new(1024));
    assert_eq!(pv.height(), 2);
    assert_eq!(pv.capacity(), 1024);
    assert_eq!(*pv.get(1024).unwrap(), 1024);
}

#[test]
fn set_on_empty_vector_index_zero_only() {
    let empty: PersistentVector<u8> = PersistentVector::new();
    let one = empty.set(0, 7).unwrap();
    assert_eq!(one.len(), 1);
    assert_eq!(*one.get(0).unwrap(), 7);
    let err = empty.set(1, 7).err().unwrap();
    assert_eq!(err, "invalid index. check to index");
    let err = one.update(3, |v| v + 1).err().unwrap();
    assert_eq!(err, "invalid index");
}

#[test]
fn pop_keeps_height_until_empty() {
    let mut pv: PersistentVector<u32> = PersistentVector::new();
    for i in 0..40 {
        pv = pv.push(Arc::new(i));
    }
    assert_eq!(pv.height(), 1);
    let mut current = pv.clone();
    for _ in 0..39 {
        current = current.pop().unwrap();
    }
    assert_eq!(current.len(), 1);
    assert_eq!(current.height(), 1);
    let empty = current.pop().unwrap();
    assert_eq!(empty.height(), 0);
    assert!(empty.is_empty());
}

#[test]
fn truncate_across_children_and_to_zero() {
    let mut pv: PersistentVector<u32> = PersistentVector::new();
    for i in 0..100 {
        pv = pv.push(Arc::new(i));
    }
    let t64 = pv.truncate(64);
    assert_eq!(t64.len(), 64);
    assert_eq!(*t64.last().unwrap(), 63);
    let t65 = pv.truncate(65);
    assert_eq!(*t65.last().unwrap(), 64);
    let all = pv.truncate(100);
    assert_eq!(all.len(), 100);
    let none = pv.truncate(0);
    assert!(none.is_empty());
    assert_eq!(none.height(), 0);
    let again = t65.push(Arc::new(500));
    assert_eq!(*again.get(65).unwrap(), 500);
    assert_eq!(again.len(), 66);
}

#[test]
fn insert_at_end_and_remove_last() {
    let mut pv: PersistentVector<u32> = PersistentVector::new();
    for i in 0..3 {
        pv = pv.push(Arc::new(i));
    }
    let grown = pv.insert(3, 3);
    assert_eq!(forward_u32(grown.iter()), vec![0, 1, 2, 3]);
    let front = pv.insert(0, 9);
    assert_eq!(forward_u32(front.iter()), vec![9, 0, 1, 2]);
    let shrunk = grown.remove(3);
    assert_eq!(forward_u32(shrunk.iter()), vec![0, 1, 2]);
}

fn forward_u32(mut iter: Iter<u32>) -> Vec<u32> {
    let mut out = Vec::new();
    while let Some(x) = iter.next() {
        out.push(*x);
    }
    out
}

#[test]
fn contains_and_extend() {
    let pv: PersistentVector<u32> = PersistentVector::new();
    let pv = pv.extend(vec![4, 5, 6]);
    assert_eq!(forward_u32(pv.iter()), vec![4, 5, 6]);
    assert!(pv.contains(&5));
    assert!(!pv.contains(&7));
}

#[test]
fn unstable_and_keyed_sorts() {
    let mut pv: PersistentVector<i32> = PersistentVector::new();
    for n in [3, -1, 2, -5] {
        pv = pv.push(Arc::new(n));
    }
    assert_eq!(forward(pv.sort_unstable_by(|a, b| b.cmp(a)).iter()), vec![3, 2, -1, -5]);
    assert_eq!(forward(pv.sort_unstable_by_key(|x| x.abs()).iter()), vec![-1, 2, 3, -5]);
    assert_eq!(forward(pv.sort_unstable_by_cached_key(|x| x.abs()).iter()), vec![-1, 2, 3, -5]);
}

#[test]
fn equality_ignores_tree_shape() {
    let mut long = PersistentVector::new();
    for i in 0..40u32 {
        long = long.push(Arc::new(i));
    }
    let cut = long.truncate(10);
    let mut short = PersistentVector::new();
    for i in 0..10u32 {
        short = short.push(Arc::new(i));
    }
    assert!(cut.height() > short.height());
    assert!(cut == short);
    assert!(long != short);
    assert!(short.set(3, 99).unwrap() != short);
}

#[test]
fn stable_sorts_keep_the_order_of_equal_keys() {
    let mut pv: PersistentVector<i32> = PersistentVector::new();
    for x in [21, 3, 11, 5, 1, 13] {
        pv = pv.push(Arc::new(x));
    }
    let by_key: Vec<i32> = forward(pv.sort_by_key(|&x| x % 10).iter());
    assert_eq!(by_key, vec![21, 11, 1, 3, 13, 5]);
    let by_cached: Vec<i32> = forward(pv.sort_by_cached_key(|&x| x % 10).iter());
    assert_eq!(by_cached, vec![21, 11, 1, 3, 13, 5]);
    let by: Vec<i32> = forward(pv.sort_by(|a, b| (a % 10).cmp(&(b % 10))).iter());
    assert_eq!(by, vec![21, 11, 1, 3, 13, 5]);
    let unstable: Vec<i32> = forward(pv.sort_unstable_by(|a, b| b.cmp(a)).iter());
    assert_eq!(unstable, vec![21, 13, 11, 5, 3, 1]);
}

#[test]
fn pushes_read_back_by_index() {
    let mut pv: PersistentVector<usize> = PersistentVector::new();
    for i in 0..100usize {
        pv = pv.push(Arc::new(i * 3));
    }
    for i in 0..100usize {
        assert_eq!(*pv.get(i).unwrap(), i * 3);
    }
    assert!(pv.get(100).is_none());
}

#[test]
fn next_and_next_back_meet_in_the_middle() {
    let mut pv: PersistentVector<i32> = PersistentVector::new();
    for x in 0..7 {
        pv = pv.push(Arc::new(x));
    }
    let mut iter = pv.iter();
    assert_eq!(*iter.next().unwrap(), 0);
    assert_eq!(*iter.next_back().unwrap(), 6);
    assert_eq!(*iter.next_back().unwrap(), 5);
    assert_eq!(*iter.next().unwrap(), 1);
    assert_eq!(iter.len(), 3);
    assert_eq!(*iter.next().unwrap(), 2);
    assert_eq!(*iter.next_back().unwrap(), 4);
    assert_eq!(*iter.next().unwrap(), 3);
    assert!(iter.next().is_none());
    assert!(iter.next_back().is_none());
}

#[test]
fn mixed_operations_match_a_vec() {
    let mut pv: PersistentVector<u64> = PersistentVector::new();
    let mut model: Vec<u64> = Vec::new();
    let mut seed: u64 = 7;
    for step in 0..2000u64 {
        seed = seed.wrapping_mul(6364136223846793005).wrapping_add(1442695040888963407);
        match (seed >> 33) % 4 {
            0 | 1 => {
                pv = pv.push(Arc::new(step));
                model.push(step);
            }
            2 => {
                if !model.is_empty() {
                    let i = ((seed >> 40) as usize) % model.len();
                    pv = pv.set(i, step * 10).unwrap();
                    model[i] = step * 10;
                }
            }
            _ => {
                if let Some(p) = pv.pop() {
                    pv = p;
                    model.pop();
                } else {
                    assert!(model.is_empty());
                }
            }
        }
        assert_eq!(pv.len(), model.len());
    }
    for (i, x) in model.iter().enumerate() {
        assert_eq!(*pv.get(i).unwrap(), *x);
    }
    assert!(pv.get(model.len()).is_none());
}
