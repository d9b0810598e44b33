use enigma::allocator::fixed_size_block::list_index;
use enigma::allocator::Heap;
use enigma::allocator::HEAP_SIZE;

#[test]
fn simple_allocation() {
    let mut heap = Heap::new(HEAP_SIZE);
    let heap_value_1 = heap.allocate(8, 8).expect("first allocation failed");
    let heap_value_2 = heap.allocate(8, 8).expect("second allocation failed");
    heap.write_u64(heap_value_1, 41);
    heap.write_u64(heap_value_2, 13);
    assert_eq!(heap.read_u64(heap_value_1), 41);
    assert_eq!(heap.read_u64(heap_value_2), 13);
    assert_ne!(heap_value_1, heap_value_2);
    // the two 8-byte spans do not overlap
    assert!(heap_value_1 + 8 <= heap_value_2 || heap_value_2 + 8 <= heap_value_1);
}

#[test]
fn large_vec() {
    // push 1000 sequential integers into a growable array backed by the
    // heap, doubling its capacity on demand
    let n: u64 = 1000;
    let mut heap = Heap::new(HEAP_SIZE);
    let mut cap: usize = 1;
    let mut len: usize = 0;
    let mut addr = heap.allocate(8 * cap, 8).expect("initial allocation failed");
    for i in 0..n {
        if len == cap {
            let new_cap = cap * 2;
            let new_addr = heap.allocate(8 * new_cap, 8).expect("growth allocation failed");
            for k in 0..len {
                let v = heap.read_u64(addr + 8 * k);
                heap.write_u64(new_addr + 8 * k, v);
            }
            heap.deallocate(addr, 8 * cap, 8);
            addr = new_addr;
            cap = new_cap;
        }
        heap.write_u64(addr + 8 * len, i);
        len += 1;
    }
    let mut sum: u64 = 0;
    for k in 0..len {
        sum += heap.read_u64(addr + 8 * k);
    }
    assert_eq!(sum, (n - 1) * n / 2);
    assert_eq!(sum, 499500);
}

#[test]
fn many_boxes() {
    // allocate and immediately free a single integer HEAP_SIZE times: this
    // only succeeds if freed memory is actually reused
    let mut heap = Heap::new(HEAP_SIZE);
    for i in 0..HEAP_SIZE as u64 {
        let x = heap.allocate(8, 8).expect("allocation failed");
        heap.write_u64(x, i);
        assert_eq!(heap.read_u64(x), i);
        heap.deallocate(x, 8, 8);
    }
}

#[test]
fn oversize_uses_fallback() {
    // a layout larger than the largest size class has no class and is
    // served by the fallback allocator, aligned and intact
    assert_eq!(list_index(4096, 8), None);
    assert_eq!(list_index(2049, 1), None);
    let mut heap = Heap::new(HEAP_SIZE);
    let p = heap.allocate(4096, 8).expect("oversize allocation failed");
    assert_eq!(p % 8, 0);
    heap.write_u64(p, 7);
    heap.write_u64(p + 4088, 9);
    assert_eq!(heap.read_u64(p), 7);
    assert_eq!(heap.read_u64(p + 4088), 9);
    heap.deallocate(p, 4096, 8);
}

#[test]
fn distinct_allocations_do_not_alias() {
    let mut heap = Heap::new(HEAP_SIZE);
    let a = heap.allocate(8, 8).unwrap();
    let b = heap.allocate(8, 8).unwrap();
    heap.write_u64(a, 0xdead_beef);
    heap.write_u64(b, 0x1234_5678);
    // writing through one allocation leaves the other untouched
    assert_eq!(heap.read_u64(a), 0xdead_beef);
    assert_eq!(heap.read_u64(b), 0x1234_5678);
    heap.write_u64(a, 1);
    assert_eq!(heap.read_u64(b), 0x1234_5678);
}

#[test]
fn byte_roundtrip() {
    let mut heap = Heap::new(1024);
    let p = heap.allocate(4, 4).unwrap();
    heap.write_byte(p, 200);
    heap.write_byte(p + 1, 201);
    assert_eq!(heap.read_byte(p), 200);
    assert_eq!(heap.read_byte(p + 1), 201);
}

#[test]
fn heap_exhaustion_fails_cleanly() {
    // requesting more bytes than the heap holds yields a failure result
    let mut heap = Heap::new(1024);
    assert_eq!(heap.allocate(4096, 1), None);
    // and so does filling it up bit by bit
    let mut granted: usize = 0;
    loop {
        match heap.allocate(512, 1) {
            Some(_) => granted += 512,
            None => break,
        }
    }
    assert!(granted <= 1024);
    assert!(granted > 0);
}
