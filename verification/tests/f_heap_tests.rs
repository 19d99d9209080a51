use fib_heap::f_heap::FHeap;
use fib_heap::f_heap::FibEntry;
use fib_heap::f_heap::HeapError;

#[test]
fn test_fheap_meld() {
    let mut fheap: FHeap<i64> = FHeap::new();
    fheap.insert(1, 1);
    fheap.insert(3, 3);
    fheap.insert(9, 9);
    let mut singleton: FHeap<i64> = FHeap::new();
    singleton.insert(0, 0);
    fheap.meld(singleton);
    let (k, v) = fheap.find_min().unwrap();
    assert_eq!((k, *v), (0, 0));
}

#[test]
fn test_fheap_insert() {
    let mut fheap: FHeap<String> = FHeap::new();
    fheap.insert(1, "one".to_string());
    fheap.insert(4, "four".to_string());
    {
        let (k, v) = fheap.find_min().unwrap();
        assert_eq!(k, 1);
        assert_eq!(v.as_str(), "one");
    }
    fheap.insert(0, "zero".to_string());
    let (k, v) = fheap.find_min().unwrap();
    assert_eq!(k, 0);
    assert_eq!(v.as_str(), "zero");
}

#[test]
fn test_fheap_delete_min() {
    let mut fheap: FHeap<String> = FHeap::new();
    fheap.insert(1, "1".to_string());
    fheap.insert(4, "4".to_string());
    fheap.insert(0, "0".to_string());
    fheap.insert(5, "5".to_string());
    assert_eq!(fheap.num_roots(), 4);
    fheap.delete_min().unwrap();
    {
        let (k, v) = fheap.find_min().unwrap();
        assert_eq!(k, 1);
        assert_eq!(v.as_str(), "1");
    }
    assert_eq!(fheap.num_roots(), 2);
    let (k, v) = fheap.delete_min().unwrap();
    assert_eq!((k, v.as_str()), (1, "1"));
    let (k2, v2) = fheap.find_min().unwrap();
    assert_eq!((k2, v2.as_str()), (4, "4"));
    assert_eq!(fheap.num_roots(), 1);
}

#[test]
fn test_fheap_decrease_key() {
    let mut fheap: FHeap<String> = FHeap::new();
    fheap.insert(1, "1".to_string());
    let four = fheap.insert(4, "4".to_string());
    fheap.insert(0, "0".to_string());
    let five = fheap.insert(5, "5".to_string());
    fheap.delete_min().unwrap();
    // consolidation has linked the tree of key 4 under the tree of key 1, so
    // the decrease cuts it back out to the forest
    fheap.decrease_key(four, 2).unwrap();
    assert_eq!(fheap.key(four).unwrap(), 2);
    assert!(fheap.parent(four).unwrap().is_none());
    assert_eq!(fheap.num_roots(), 3);
    fheap.decrease_key(five, 5).unwrap();
    assert_eq!(fheap.num_roots(), 3);
    let (k, v) = fheap.find_min().unwrap();
    assert_eq!((k, v.as_str()), (0, "5"));
}

#[test]
fn test_fheap_delete() {
    let mut fheap: FHeap<String> = FHeap::new();
    let one = fheap.insert(1, "1".to_string());
    let four = fheap.insert(4, "4".to_string());
    fheap.insert(0, "0".to_string());
    fheap.insert(5, "5".to_string());
    fheap.delete_min().unwrap();
    let (kfour, _) = fheap.delete(four).unwrap();
    assert_eq!(kfour, 4);
    assert_eq!(fheap.num_roots(), 2);
    fheap.delete(one).unwrap();
    assert_eq!(fheap.num_roots(), 1);
    let (k, v) = fheap.find_min().unwrap();
    assert_eq!((k, v.as_str()), (5, "5"));
}

#[test]
fn test_fheap_cascading_cut() {
    let mut fheap: FHeap<&'static str> = FHeap::new();
    fheap.insert(1, "1");
    fheap.insert(4, "4");
    fheap.insert(0, "0");
    fheap.insert(5, "5");
    fheap.insert(2, "2");
    let h3 = fheap.insert(3, "3");
    let h6 = fheap.insert(6, "6");
    fheap.insert(7, "7");
    fheap.insert(18, "18");
    fheap.insert(9, "9");
    fheap.insert(11, "11");
    fheap.insert(15, "15");
    fheap.delete_min().unwrap();
    let (k, v) = fheap.find_min().unwrap();
    assert_eq!((k, *v), (1, "1"));
    assert_eq!(fheap.num_roots(), 3);
    // key 6 hangs below key 3, which hangs below key 1: the first decrease
    // cuts 6 and marks 3, the second cuts the marked 3 and stops at the root
    fheap.decrease_key(h6, 2).unwrap();
    assert!(fheap.mark(h3).unwrap());
    fheap.decrease_key(h3, 3).unwrap();
    assert_eq!(fheap.num_roots(), 5);
    assert!(!fheap.mark(h3).unwrap());
    assert!(fheap.parent(h3).unwrap().is_none());
}

// insert keys 1, 4, 0, 5: the minimum is 0; removing it leaves 1 as the
// minimum and exactly two trees, one being the untouched singleton of key 5,
// one formed by linking the equal-rank singletons of keys 1 and 4
#[test]
fn test_delete_min_consolidation_scenario() {
    let mut fheap: FHeap<u32> = FHeap::new();
    fheap.insert(1, 10);
    fheap.insert(4, 40);
    fheap.insert(0, 0);
    fheap.insert(5, 50);
    {
        let (k, _) = fheap.find_min().unwrap();
        assert_eq!(k, 0);
    }
    assert_eq!(fheap.num_roots(), 4);
    let (k, v) = fheap.delete_min().unwrap();
    assert_eq!((k, v), (0, 0));
    let (k2, _) = fheap.find_min().unwrap();
    assert_eq!(k2, 1);
    assert_eq!(fheap.num_roots(), 2);
}

// insert keys 1, 4, 0, 5, remove the minimum, then decrease the key 4 by 2:
// the key becomes exactly 2, the node turns into an unmarked root
#[test]
fn test_decrease_key_becomes_root_scenario() {
    let mut fheap: FHeap<u32> = FHeap::new();
    fheap.insert(1, 10);
    let four = fheap.insert(4, 40);
    fheap.insert(0, 0);
    fheap.insert(5, 50);
    fheap.delete_min().unwrap();
    assert!(fheap.parent(four).unwrap().is_some());
    fheap.decrease_key(four, 2).unwrap();
    assert_eq!(fheap.key(four).unwrap(), 2);
    assert!(fheap.parent(four).unwrap().is_none());
    assert!(!fheap.mark(four).unwrap());
}

// heap order: along every handle-to-parent link the parent's key is no larger
#[test]
fn test_heap_order_along_links() {
    let mut fheap: FHeap<u8> = FHeap::new();
    let keys: Vec<u64> = vec![8, 3, 11, 3, 25, 1, 7, 19, 2, 30];
    let mut handles: Vec<FibEntry> = Vec::new();
    for &k in keys.iter() {
        handles.push(fheap.insert(k, 0));
    }
    fheap.delete_min().unwrap();
    fheap.delete_min().unwrap();
    for &h in handles.iter() {
        if let Ok(k) = fheap.key(h) {
            if let Some(p) = fheap.parent(h).unwrap() {
                assert!(fheap.key(p).unwrap() <= k);
            }
        }
    }
}

// rank uniqueness: right after delete_min no two roots share a rank
#[test]
fn test_ranks_distinct_after_delete_min() {
    let mut fheap: FHeap<u8> = FHeap::new();
    let keys: Vec<u64> = vec![6, 2, 14, 9, 1, 22, 5, 17, 3];
    let mut handles: Vec<FibEntry> = Vec::new();
    for &k in keys.iter() {
        handles.push(fheap.insert(k, 0));
    }
    fheap.delete_min().unwrap();
    let mut root_ranks: Vec<usize> = Vec::new();
    for &h in handles.iter() {
        if fheap.key(h).is_ok() && fheap.parent(h).unwrap().is_none() {
            root_ranks.push(fheap.rank(h).unwrap());
        }
    }
    assert_eq!(root_ranks.len(), fheap.num_roots());
    for i in 0..root_ranks.len() {
        for j in (i + 1)..root_ranks.len() {
            assert_ne!(root_ranks[i], root_ranks[j]);
        }
    }
}

// find_min always reports the smallest live key
#[test]
fn test_find_min_is_smallest() {
    let mut fheap: FHeap<u8> = FHeap::new();
    let keys: Vec<u64> = vec![12, 7, 7, 40, 3, 9];
    for &k in keys.iter() {
        fheap.insert(k, 0);
    }
    let (k, _) = fheap.find_min().unwrap();
    assert_eq!(k, 3);
    fheap.delete_min().unwrap();
    let (k2, _) = fheap.find_min().unwrap();
    assert_eq!(k2, 7);
}

// meld: the union of the key multisets drains in sorted order, and the
// smaller minimum wins
#[test]
fn test_meld_union_of_keys() {
    let mut a: FHeap<u8> = FHeap::new();
    for &k in [5u64, 1, 9].iter() {
        a.insert(k, 0);
    }
    let mut b: FHeap<u8> = FHeap::new();
    for &k in [4u64, 12, 1].iter() {
        b.insert(k, 0);
    }
    a.meld(b);
    let (k, _) = a.find_min().unwrap();
    assert_eq!(k, 1);
    let mut drained: Vec<u64> = Vec::new();
    while let Ok((k, _)) = a.delete_min() {
        drained.push(k);
    }
    assert_eq!(drained, vec![1, 1, 4, 5, 9, 12]);
}

// delete removes exactly one occurrence of the key; the node's former
// children stay in the heap
#[test]
fn test_delete_keeps_other_keys() {
    let mut fheap: FHeap<u8> = FHeap::new();
    let keys: Vec<u64> = vec![10, 4, 8, 4, 2, 15];
    let mut handles: Vec<FibEntry> = Vec::new();
    for &k in keys.iter() {
        handles.push(fheap.insert(k, 0));
    }
    fheap.delete_min().unwrap();
    let (kd, _) = fheap.delete(handles[1]).unwrap();
    assert_eq!(kd, 4);
    // one key 4 is gone, the other stays; everything else survives
    let mut drained: Vec<u64> = Vec::new();
    while let Ok((k, _)) = fheap.delete_min() {
        drained.push(k);
    }
    assert_eq!(drained, vec![4, 8, 10, 15]);
}

#[test]
fn test_empty_heap_errors() {
    let mut fheap: FHeap<u8> = FHeap::new();
    assert_eq!(fheap.find_min().err().unwrap(), HeapError::EmptyHeap);
    assert_eq!(fheap.delete_min().err().unwrap(), HeapError::EmptyHeap);
}

#[test]
fn test_stale_handle_errors() {
    let mut fheap: FHeap<u8> = FHeap::new();
    let h = fheap.insert(3, 0);
    fheap.insert(7, 0);
    let (k, _) = fheap.delete_min().unwrap();
    assert_eq!(k, 3);
    assert_eq!(fheap.key(h).err().unwrap(), HeapError::StaleHandle);
    assert_eq!(fheap.decrease_key(h, 1).err().unwrap(), HeapError::StaleHandle);
    assert_eq!(fheap.delete(h).err().unwrap(), HeapError::StaleHandle);
    assert_eq!(fheap.value(h).err().unwrap(), HeapError::StaleHandle);
    assert_eq!(fheap.mark(h).err().unwrap(), HeapError::StaleHandle);
    assert_eq!(fheap.parent(h).err().unwrap(), HeapError::StaleHandle);
    assert_eq!(fheap.rank(h).err().unwrap(), HeapError::StaleHandle);
}

#[test]
fn test_invalid_delta_error() {
    let mut fheap: FHeap<u8> = FHeap::new();
    let h = fheap.insert(3, 0);
    assert_eq!(fheap.decrease_key(h, 4).err().unwrap(), HeapError::InvalidDelta);
    // the failed call changed nothing
    assert_eq!(fheap.key(h).unwrap(), 3);
    // a decrease to exactly zero is allowed
    fheap.decrease_key(h, 3).unwrap();
    assert_eq!(fheap.key(h).unwrap(), 0);
}

#[test]
fn test_decrease_key_on_root_updates_min() {
    let mut fheap: FHeap<u8> = FHeap::new();
    fheap.insert(2, 0);
    let h = fheap.insert(9, 1);
    fheap.decrease_key(h, 8).unwrap();
    let (k, v) = fheap.find_min().unwrap();
    assert_eq!((k, *v), (1, 1));
}

#[test]
fn test_meld_with_empty() {
    let mut a: FHeap<u8> = FHeap::new();
    a.insert(6, 0);
    let b: FHeap<u8> = FHeap::new();
    a.meld(b);
    let (k, _) = a.find_min().unwrap();
    assert_eq!(k, 6);
    let mut c: FHeap<u8> = FHeap::new();
    let mut d: FHeap<u8> = FHeap::new();
    d.insert(2, 0);
    c.meld(d);
    let (k2, _) = c.find_min().unwrap();
    assert_eq!(k2, 2);
}

#[test]
fn test_value_accessor() {
    let mut fheap: FHeap<String> = FHeap::new();
    let h = fheap.insert(5, "five".to_string());
    assert_eq!(fheap.value(h).unwrap().as_str(), "five");
    assert_eq!(fheap.rank(h).unwrap(), 0);
    assert!(!fheap.mark(h).unwrap());
}

#[test]
fn test_meld_rebase_handles() {
    let mut a: FHeap<&'static str> = FHeap::new();
    let ha = a.insert(5, "five");
    let mut b: FHeap<&'static str> = FHeap::new();
    let hb = b.insert(7, "seven");
    let off = a.num_nodes();
    a.meld(b);
    // the receiver's handle is untouched; the donated one must be rebased
    assert_eq!(a.key(ha).unwrap(), 5);
    let hb2 = hb.rebase(off);
    assert_eq!(a.key(hb2).unwrap(), 7);
    assert_eq!(*a.value(hb2).unwrap(), "seven");
    a.decrease_key(hb2, 4).unwrap();
    let (k, v) = a.find_min().unwrap();
    assert_eq!((k, *v), (3, "seven"));
}
