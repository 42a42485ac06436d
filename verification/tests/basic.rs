use vec_tiered::TieredError;
use vec_tiered::VecTiered;

#[test]
fn it_works() {
    let mut v = VecTiered::with_capacity(64).unwrap();
    for i in 0..64 {
        let x = i.clone();
        v.push(x);
    }
    println!("Length {}", v.len());
    assert!(v.len() == 64);
    for i in 0..64 {
        assert!(v.get(i) == Some(&i));
    }
}

#[test]
fn performance_test() {
    let mut v = VecTiered::with_capacity(64).unwrap();
    for i in 0..64 {
        v.push(i);
    }
    for _i in 0..1_000_000 {
        let _ = v.insert(32, 100);
        let _ = v.remove(32);
    }
}

#[test]
fn zero_capacity_is_rejected() {
    let r = VecTiered::<u32>::with_capacity(0);
    assert!(matches!(r, Err(TieredError::ZeroCapacity)));
}

#[test]
fn zero_sized_elements_are_rejected() {
    let r = VecTiered::<()>::with_capacity(16);
    assert!(matches!(r, Err(TieredError::ZeroSizedElement)));
}

#[test]
fn insert_past_length_is_a_bounds_error() {
    let mut v = VecTiered::with_capacity(64).unwrap();
    v.push(1u32);
    v.push(2u32);
    let r = v.insert(3, 9u32);
    assert!(r == Err(TieredError::IndexOutOfBounds));
    assert_eq!(v.len(), 2);
    assert!(v.get(0) == Some(&1));
    assert!(v.get(1) == Some(&2));
}

#[test]
fn insert_at_length_behaves_like_push() {
    let mut a = VecTiered::with_capacity(64).unwrap();
    let mut b = VecTiered::with_capacity(64).unwrap();
    for i in 0..20u64 {
        let n: usize = a.len();
        assert!(a.insert(n, i) == Ok(()));
        b.push(i);
    }
    assert_eq!(a.len(), b.len());
    assert_eq!(a.to_vec(), b.to_vec());
}

#[test]
fn remove_at_length_is_a_bounds_error() {
    let mut v = VecTiered::with_capacity(64).unwrap();
    v.push(5i64);
    let n: usize = v.len();
    let r = v.remove(n);
    assert!(r == Err(TieredError::IndexOutOfBounds));
    assert_eq!(v.len(), 1);
}

#[test]
fn pop_on_empty_returns_none() {
    let mut v = VecTiered::<u8>::with_capacity(64).unwrap();
    assert!(v.len() == 0);
    assert!(v.pop() == None);
    assert!(v.len() == 0);
}

#[test]
fn pop_returns_elements_in_reverse_order() {
    let mut v = VecTiered::with_capacity(64).unwrap();
    v.push(1u32);
    v.push(2u32);
    v.push(3u32);
    assert!(v.pop() == Some(3));
    assert!(v.pop() == Some(2));
    assert!(v.pop() == Some(1));
    assert!(v.pop() == None);
}

#[test]
fn get_and_set_by_index() {
    let mut v = VecTiered::with_capacity(64).unwrap();
    for i in 0..10u32 {
        v.push(i);
    }
    assert!(v.get(7) == Some(&7));
    assert!(v.get(10) == None);
    assert!(v.set(7, 70) == Ok(()));
    assert!(v.get(7) == Some(&70));
    assert!(v.set(10, 1) == Err(TieredError::IndexOutOfBounds));
}

#[test]
fn clear_empties_but_keeps_capacity() {
    let mut v = VecTiered::with_capacity(64).unwrap();
    for i in 0..30u16 {
        v.push(i);
    }
    let cap_before: usize = v.capacity();
    v.clear();
    assert!(v.is_empty());
    assert_eq!(v.len(), 0);
    assert_eq!(v.capacity(), cap_before);
    v.push(9u16);
    assert!(v.get(0) == Some(&9));
    assert_eq!(v.len(), 1);
}

#[test]
fn length_tracks_successful_edits() {
    let mut v = VecTiered::with_capacity(64).unwrap();
    let mut net: usize = 0;
    for i in 0..50u32 {
        v.push(i);
        net += 1;
    }
    assert!(v.insert(10, 500) == Ok(()));
    net += 1;
    assert!(v.insert(v.len() + 1, 1).is_err());
    assert!(v.remove(0).is_ok());
    net -= 1;
    assert!(v.remove(v.len()).is_err());
    assert!(v.pop().is_some());
    net -= 1;
    assert_eq!(v.len(), net);
}
