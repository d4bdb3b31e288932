use lib::allocator::StdAlloc;
use lib::dynarray::DynArray;
use lib::ld_alloc::LDAlloc;

// The iterator moves before it reads, so it hands out the elements after
// the first; the first comes from `front`.
fn contents<A: lib::allocator::Alloc>(a: &DynArray<i32, A>) -> Vec<i32> {
    let mut out = Vec::new();
    if a.size() == 0 {
        return out;
    }
    out.push(*a.front());
    let mut it = a.begin();
    while it.index_of() + 1 < a.size() {
        out.push(*it.next().unwrap());
    }
    out
}

#[test]
fn it_works() {
    let allocator = StdAlloc::new();
    let _ld_allocator = LDAlloc::new(StdAlloc::new());

    println!("Vec test:");
    let mut a = DynArray::<i32, StdAlloc>::new(allocator);
    let mut model: Vec<i32> = Vec::new();

    for i in 1..100 {
        if a.push_back(i).is_none() {
            panic!("Error inserting element, aborting");
        }
        model.push(i);
    }

    for i in 1..100 {
        if a.push_front(i).is_none() {
            panic!("Error inserting element, aborting");
        }
        model.insert(0, i);
    }

    for i in 1i32..100i32 {
        if a.insert(i as usize, i).is_none() {
            panic!("Error inserting element, aborting");
        }
        model.insert(i as usize, i);
    }

    println!("{}", a.front());
    let mut it = a.begin();
    while it.index_of() + 1 < a.size() {
        println!("{}", it.next().unwrap());
    }

    assert_eq!(a.size(), 297);
    assert_eq!(contents(&a), model);
}

#[test]
fn push_back_appends_and_hands_out_the_slot() {
    let mut a = DynArray::<i32, StdAlloc>::new(StdAlloc::new());
    assert_eq!(a.size(), 0);
    assert_eq!(a.data(), 0);
    *a.push_back(7).unwrap() += 1;
    assert_eq!(*a.push_back(9).unwrap(), 9);
    assert_eq!(contents(&a), vec![8, 9]);
    assert_eq!(*a.front(), 8);
    assert_eq!(*a.back(), 9);
}

#[test]
fn push_front_and_insert_place_elements() {
    let mut a = DynArray::<i32, StdAlloc>::new(StdAlloc::new());
    assert_eq!(*a.push_front(3).unwrap(), 3);
    assert_eq!(*a.push_front(1).unwrap(), 1);
    assert_eq!(*a.insert(1, 2).unwrap(), 2);
    assert_eq!(*a.insert(3, 4).unwrap(), 4);
    assert_eq!(contents(&a), vec![1, 2, 3, 4]);
}

#[test]
fn pops_undo_pushes() {
    let mut a = DynArray::<i32, StdAlloc>::new(StdAlloc::new());
    for i in 0..5 {
        a.push_back(i).unwrap();
    }
    a.push_back(42).unwrap();
    a.pop_back();
    assert_eq!(contents(&a), vec![0, 1, 2, 3, 4]);
    a.push_front(42).unwrap();
    assert_eq!(contents(&a), vec![42, 0, 1, 2, 3, 4]);
    // pop_front takes one off the count and keeps the slots as they are
    a.pop_front();
    assert_eq!(contents(&a), vec![42, 0, 1, 2, 3]);
    a.pop_front();
    a.pop_back();
    assert_eq!(contents(&a), vec![42, 0, 1]);
}

#[test]
fn front_mut_and_back_mut_change_the_ends() {
    let mut a = DynArray::<i32, StdAlloc>::new(StdAlloc::new());
    for i in 0..3 {
        a.push_back(i).unwrap();
    }
    *a.front_mut() = 10;
    *a.back_mut() = 20;
    assert_eq!(contents(&a), vec![10, 1, 20]);
}

// The standard allocator places blocks upwards from 4096, so the address
// of the array's block shows each capacity it grew to: i32 slots are 4
// bytes, and capacities go 1, 2, 3, 4, 6, 9.
#[test]
fn capacity_grows_by_half() {
    let mut a = DynArray::<i32, StdAlloc>::new(StdAlloc::new());
    let mut addrs = Vec::new();
    for i in 0..7 {
        a.push_back(i).unwrap();
        addrs.push(a.data());
    }
    assert_eq!(addrs, vec![4096, 4100, 4108, 4120, 4136, 4136, 4160]);
    assert_eq!(a.data_mut(), a.data());
}

#[test]
fn reserve_and_shrink_to_fit_move_the_block() {
    let mut a = DynArray::<i32, StdAlloc>::new(StdAlloc::new());
    assert!(a.reserve(10));
    assert_eq!(a.data(), 4096);
    a.push_back(1).unwrap();
    a.push_back(2).unwrap();
    // room already there: no new block
    assert!(a.reserve(5));
    assert_eq!(a.data(), 4096);
    // shrinking with the same alignment keeps the block where it is
    assert!(a.shrink_to_fit());
    assert_eq!(a.data(), 4096);
    assert_eq!(contents(&a), vec![1, 2]);
    // now full: the next element needs a grown block
    a.push_back(3).unwrap();
    assert_eq!(a.data(), 4136);
    assert_eq!(contents(&a), vec![1, 2, 3]);
}

#[test]
fn resize_fills_and_cuts() {
    let mut a = DynArray::<i32, StdAlloc>::new(StdAlloc::new());
    a.push_back(5).unwrap();
    assert!(a.resize(4, 7));
    assert_eq!(contents(&a), vec![5, 7, 7, 7]);
    assert!(a.resize(2, 0));
    assert_eq!(contents(&a), vec![5, 7]);
    assert!(a.resize(2, 9));
    assert_eq!(contents(&a), vec![5, 7]);
    assert!(a.resize(0, 9));
    assert_eq!(a.size(), 0);
}

#[test]
fn resize_grows_a_fresh_array() {
    let mut a = DynArray::<i32, StdAlloc>::new(StdAlloc::new());
    assert!(a.resize(2, 7));
    assert_eq!(a.size(), 2);
    assert_eq!(contents(&a), vec![7, 7]);
    assert_eq!(a.data(), 4096);
}

#[test]
fn remove_leaves_the_array() {
    let mut a = DynArray::<i32, StdAlloc>::new(StdAlloc::new());
    a.push_back(1).unwrap();
    a.push_back(2).unwrap();
    a.remove(0);
    assert_eq!(contents(&a), vec![1, 2]);
}

#[test]
fn iterators_walk_in_order() {
    let mut a = DynArray::<i32, StdAlloc>::new(StdAlloc::new());
    for i in 0..4 {
        a.push_back(i * 10).unwrap();
    }
    let mut it = a.begin();
    let mut end = a.end();
    assert_eq!(it.index_of(), 0);
    assert_eq!(end.index_of(), 4);
    let mut seen = Vec::new();
    while it.index_of() + 1 < a.size() {
        seen.push(*it.next().unwrap());
    }
    assert_eq!(seen, vec![10, 20, 30]);
    assert_eq!(it.index_of(), 3);
    assert!(end.next().is_none());
    assert_eq!(end.index_of(), 4);
    let mut mid = lib::dynarray::Iter::new(&a, 1);
    assert_eq!(mid.index_of(), 1);
    assert_eq!(mid.next(), Some(&20));
    assert_eq!(mid.index_of(), 2);
}

#[test]
fn mut_iterator_changes_elements() {
    let mut a = DynArray::<i32, StdAlloc>::new(StdAlloc::new());
    for i in 0..4 {
        a.push_back(i).unwrap();
    }
    {
        let mut it = a.begin_mut();
        assert_eq!(it.index_of(), 0);
        while let Some(x) = it.next() {
            *x *= 2;
        }
        assert_eq!(it.index_of(), 4);
        assert!(it.next().is_none());
    }
    assert_eq!(contents(&a), vec![0, 2, 4, 6]);
    let e = a.end_mut();
    assert_eq!(e.index_of(), 4);
}

#[test]
fn array_over_the_leak_detector() {
    let mut a = DynArray::<u64, LDAlloc<StdAlloc>>::new(LDAlloc::new(StdAlloc::new()));
    for i in 0..20u64 {
        a.push_back(i).unwrap();
    }
    a.pop_front();
    assert_eq!(*a.front(), 0);
    assert_eq!(*a.back(), 18);
    let mut it = a.begin();
    let mut n = 1u64;
    while it.index_of() + 1 < a.size() {
        assert_eq!(*it.next().unwrap(), n);
        n += 1;
    }
    assert_eq!(n, 19);
    assert!(a.shrink_to_fit());
    assert_eq!(a.size(), 19);
}
