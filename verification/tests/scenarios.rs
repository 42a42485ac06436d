use vec_tiered::VecTiered;

#[test]
fn small_path_round_trips_at_the_middle() {
    // Capacity request of 64 takes the small fast path: tiers of 8 slots and
    // a capacity of exactly 64.
    let mut v = VecTiered::with_capacity(64).unwrap();
    assert_eq!(v.capacity(), 64);
    for i in 0..64usize {
        v.push(i);
    }
    assert_eq!(v.len(), 64);
    for i in 0..64usize {
        assert!(v.get(i) == Some(&i));
    }
    for _round in 0..10 {
        assert!(v.insert(32, 100) == Ok(()));
        assert!(v.remove(32) == Ok(100));
        assert!(v.get(32) == Some(&32));
        assert_eq!(v.len(), 64);
    }
    for i in 0..64usize {
        assert!(v.get(i) == Some(&i));
    }
}

#[test]
fn general_path_growth_keeps_every_element() {
    // A request of 1000 takes the general path: the tier size is
    // isqrt(1000) + 1 = 32 and the capacity its square, 1024.
    let mut v = VecTiered::with_capacity(1000).unwrap();
    assert_eq!(v.capacity(), 1024);
    for i in 0..1024u64 {
        v.push(i);
    }
    assert_eq!(v.len(), 1024);
    assert_eq!(v.capacity(), 1024);
    // The 1025th push exhausts the capacity and must trigger growth without
    // losing or reordering anything.
    v.push(1024);
    assert!(v.capacity() > 1024);
    assert_eq!(v.len(), 1025);
    for i in 0..1025usize {
        assert!(v.get(i) == Some(&(i as u64)));
    }
}

#[test]
fn insert_then_remove_restores_the_sequence() {
    let mut v = VecTiered::with_capacity(64).unwrap();
    for i in 0..40i32 {
        v.push(i * 3);
    }
    let before: Vec<i32> = v.to_vec();
    for i in 0..=40usize {
        assert!(v.insert(i, -1) == Ok(()));
        assert!(v.remove(i) == Ok(-1));
        assert_eq!(v.to_vec(), before);
        assert_eq!(v.len(), 40);
    }
}

#[test]
fn capacity_never_shrinks_and_bounds_length() {
    let mut v = VecTiered::with_capacity(64).unwrap();
    let mut last_cap: usize = v.capacity();
    for i in 0..3000u32 {
        if i % 7 == 3 && v.len() > 0 {
            let _ = v.remove(0);
        } else {
            assert!(v.insert(0, i) == Ok(()));
        }
        assert!(v.capacity() >= last_cap);
        assert!(v.len() <= v.capacity());
        last_cap = v.capacity();
    }
}

#[test]
fn behaves_like_a_flat_vector() {
    // Differential check against std's Vec over a deterministic but mixed
    // sequence of edits, exercising rotation, cascading, and growth.
    let mut v = VecTiered::with_capacity(64).unwrap();
    let mut model: Vec<u64> = Vec::new();
    let mut state: u64 = 0x2545_F491_4F6C_DD1D;
    for step in 0..4000u64 {
        state = state.wrapping_mul(6364136223846793005).wrapping_add(1442695040888963407);
        let choice: u64 = state >> 61;
        let value: u64 = state & 0xffff;
        if choice < 3 || model.is_empty() {
            let at: usize = if model.is_empty() {
                0
            } else {
                (state as usize >> 16) % (model.len() + 1)
            };
            assert!(v.insert(at, value) == Ok(()));
            model.insert(at, value);
        } else if choice < 5 {
            let at: usize = (state as usize >> 16) % model.len();
            let got = v.remove(at);
            let want = model.remove(at);
            assert!(got == Ok(want));
        } else if choice < 6 {
            v.push(step);
            model.push(step);
        } else if choice < 7 {
            assert!(v.pop() == model.pop());
        } else {
            let at: usize = (state as usize >> 16) % model.len();
            assert!(v.get(at) == model.get(at));
        }
        assert_eq!(v.len(), model.len());
    }
    assert_eq!(v.to_vec(), model);
}
